//! Enumeration of the amplitude pairs that differ in exactly one qubit.
//!
//! For a buffer of `2^dimension` elements and a bit position `site`, the
//! pairs are `(low, high)` with `high == low + 2^site` and bit `site` clear
//! in `low`. With `lower_bits == 2^site`, pair number `t` sits at
//! `t % lower_bits + 2 * lower_bits * (t / lower_bits)`: the bits below
//! `site` vary fastest, those above it slowest.
use crate::bit::bit_of;
use vstd::arithmetic::div_mod::{
    lemma_div_denominator,
    lemma_fundamental_div_mod,
    lemma_fundamental_div_mod_converse,
    lemma_mod_bound,
    lemma_mod_multiples_vanish,
    lemma_multiply_divide_lt,
};
use vstd::arithmetic::power2::{lemma2_to64, lemma_pow2_adds, lemma_pow2_pos, pow2};
use vstd::prelude::*;

verus! {

/// Index of the element of pair `t` whose bit `site` is clear, where
/// `lower_bits == 2^site`.
pub open spec fn pair_low(lower_bits: nat, t: nat) -> nat {
    t % lower_bits + 2 * lower_bits * (t / lower_bits)
}

/// Index of the element of pair `t` whose bit `site` is set, where
/// `lower_bits == 2^site`.
pub open spec fn pair_high(lower_bits: nat, t: nat) -> nat {
    pair_low(lower_bits, t) + lower_bits
}

/// The number of the pair whose low element is basis state `i`, where
/// `lower_bits == 2^site` and bit `site` of `i` is clear.
pub open spec fn pair_number(lower_bits: nat, i: nat) -> nat {
    i % lower_bits + lower_bits * (i / (2 * lower_bits))
}

/// For `2^dimension` basis states and bit position `site`, each of the
/// `2^(dimension - 1)` pairs addresses two basis states inside the buffer
/// that differ in bit `site` alone: it is clear in the low one and set in
/// the high one.
pub proof fn lemma_pair_differs_in_site(site: nat, dimension: nat, t: nat)
    requires
        site < dimension,
        t < pow2((dimension - 1) as nat),
    ensures
        pair_low(pow2(site), t) < pair_high(pow2(site), t) < pow2(dimension),
        !bit_of(pair_low(pow2(site), t), site),
        bit_of(pair_high(pow2(site), t), site),
        forall|k: nat|
            k != site ==> bit_of(pair_low(pow2(site), t), k) == bit_of(
                pair_high(pow2(site), t),
                k,
            ),
{
    let lb = pow2(site);
    let upper = pow2((dimension - site - 1) as nat);
    lemma_pow2_pos(site);
    lemma_pow2_pos((dimension - site - 1) as nat);
    lemma_pow2_adds(site, (dimension - site - 1) as nat);
    lemma_pow2_adds(1, (dimension - 1) as nat);
    lemma2_to64();
    let q = t / lb;
    let r = t % lb;
    lemma_fundamental_div_mod(t as int, lb as int);
    lemma_mod_bound(t as int, lb as int);
    lemma_multiply_divide_lt(t as int, lb as int, upper as int);
    let low = pair_low(lb, t);
    let high = pair_high(lb, t);
    assert(high < pow2(dimension)) by {
        assert(r + lb * (2 * q + 1) < 2 * lb * upper) by (nonlinear_arith)
            requires
                r < lb,
                q < upper,
        ;
        assert(lb * (2 * q + 1) == 2 * lb * q + lb) by (nonlinear_arith);
        assert(2 * lb * upper == 2 * (lb * upper)) by (nonlinear_arith);
    }
    assert(2 * lb * q == (2 * q) * lb) by (nonlinear_arith);
    assert(2 * lb * q + lb == (2 * q + 1) * lb) by (nonlinear_arith);
    lemma_fundamental_div_mod_converse(low as int, lb as int, (2 * q) as int, r as int);
    lemma_fundamental_div_mod_converse(high as int, lb as int, (2 * q + 1) as int, r as int);
    assert forall|k: nat| k != site implies bit_of(low, k) == bit_of(high, k) by {
        let pk = pow2(k);
        lemma_pow2_pos(k);
        if k < site {
            let m = pow2((site - k) as nat);
            lemma_pow2_adds(k, (site - k) as nat);
            lemma_pow2_adds(1, (site - k - 1) as nat);
            let c = pow2((site - k - 1) as nat);
            lemma_fundamental_div_mod(low as int, pk as int);
            lemma_mod_bound(low as int, pk as int);
            let a = low / pk;
            assert(high == (a + m) * pk + low % pk) by (nonlinear_arith)
                requires
                    low == pk * a + low % pk,
                    high == low + lb,
                    lb == pk * m,
            ;
            lemma_fundamental_div_mod_converse(high as int, pk as int, (a + m) as int, (low % pk) as int);
            lemma_mod_multiples_vanish(c as int, a as int, 2);
        } else {
            let m = pow2((k - site - 1) as nat);
            lemma_pow2_adds(1, site);
            lemma_pow2_adds(site + 1, (k - site - 1) as nat);
            lemma_pow2_pos((k - site - 1) as nat);
            assert(low == q * (2 * lb) + r) by (nonlinear_arith)
                requires
                    low == r + 2 * lb * q,
            ;
            assert(high == q * (2 * lb) + (r + lb)) by (nonlinear_arith)
                requires
                    high == r + 2 * lb * q + lb,
            ;
            lemma_fundamental_div_mod_converse(low as int, (2 * lb) as int, q as int, r as int);
            lemma_fundamental_div_mod_converse(high as int, (2 * lb) as int, q as int, (r + lb) as int);
            lemma_div_denominator(low as int, (2 * lb) as int, m as int);
            lemma_div_denominator(high as int, (2 * lb) as int, m as int);
        }
    }
}

/// Every basis state below `2^dimension` whose bit `site` is clear is the
/// low element of a pair of the enumeration: of pair `pair_number`.
pub proof fn lemma_pairs_cover(site: nat, dimension: nat, i: nat)
    requires
        site < dimension,
        i < pow2(dimension),
        !bit_of(i, site),
    ensures
        pair_number(pow2(site), i) < pow2((dimension - 1) as nat),
        pair_low(pow2(site), pair_number(pow2(site), i)) == i,
{
    let lb = pow2(site);
    let upper = pow2((dimension - site - 1) as nat);
    lemma_pow2_pos(site);
    lemma_pow2_adds(site, (dimension - site - 1) as nat);
    lemma_pow2_adds(1, (dimension - 1) as nat);
    lemma_pow2_adds(1, site);
    lemma2_to64();
    let big = 2 * lb;
    let q = i / big;
    let r = i % big;
    lemma_fundamental_div_mod(i as int, big as int);
    lemma_mod_bound(i as int, big as int);
    if r >= lb {
        assert(i == (2 * q + 1) * lb + (r - lb)) by (nonlinear_arith)
            requires
                i == big * q + r,
                big == 2 * lb,
        ;
        lemma_fundamental_div_mod_converse(i as int, lb as int, (2 * q + 1) as int, r - lb);
        assert(false);
    }
    assert(i == (2 * q) * lb + r) by (nonlinear_arith)
        requires
            i == big * q + r,
            big == 2 * lb,
    ;
    lemma_fundamental_div_mod_converse(i as int, lb as int, (2 * q) as int, r as int);
    let t = pair_number(lb, i);
    assert(t == q * lb + r) by (nonlinear_arith)
        requires
            t == r + lb * q,
    ;
    lemma_fundamental_div_mod_converse(t as int, lb as int, q as int, r as int);
    assert(2 * lb * upper == 2 * (lb * upper)) by (nonlinear_arith);
    lemma_multiply_divide_lt(i as int, big as int, upper as int);
    assert(t < lb * upper) by (nonlinear_arith)
        requires
            t == q * lb + r,
            r < lb,
            q < upper,
    ;
}

/// Different pairs have different low elements, so no basis state is
/// visited twice.
pub proof fn lemma_pairs_distinct(site: nat, t1: nat, t2: nat)
    requires
        t1 != t2,
    ensures
        pair_low(pow2(site), t1) != pair_low(pow2(site), t2),
{
    let lb = pow2(site);
    lemma_pow2_pos(site);
    lemma_fundamental_div_mod(t1 as int, lb as int);
    lemma_fundamental_div_mod(t2 as int, lb as int);
    lemma_mod_bound(t1 as int, lb as int);
    lemma_mod_bound(t2 as int, lb as int);
    let (q1, r1) = (t1 / lb, t1 % lb);
    let (q2, r2) = (t2 / lb, t2 % lb);
    assert(pair_low(lb, t1) == (2 * q1) * lb + r1) by (nonlinear_arith)
        requires
            pair_low(lb, t1) == r1 + 2 * lb * q1,
    ;
    assert(pair_low(lb, t2) == (2 * q2) * lb + r2) by (nonlinear_arith)
        requires
            pair_low(lb, t2) == r2 + 2 * lb * q2,
    ;
    lemma_fundamental_div_mod_converse(pair_low(lb, t1) as int, lb as int, (2 * q1) as int, r1 as int);
    lemma_fundamental_div_mod_converse(pair_low(lb, t2) as int, lb as int, (2 * q2) as int, r2 as int);
}

/// Pair `lower + lower_bits * upper` sits at
/// `lower + lower_bits * (2 * upper)` and `lower + lower_bits * (2 * upper + 1)`.
proof fn lemma_pair_position(lower_bits: nat, upper_bits: nat, lower: nat, upper: nat)
    requires
        lower < lower_bits,
        upper < upper_bits,
    ensures
        pair_low(lower_bits, upper * lower_bits + lower) == lower + lower_bits * (2 * upper),
        pair_high(lower_bits, upper * lower_bits + lower) == lower + lower_bits * (2 * upper + 1),
        lower + lower_bits * (2 * upper + 1) < 2 * lower_bits * upper_bits,
        upper * lower_bits + lower < lower_bits * upper_bits,
        lower_bits * (2 * upper) <= lower_bits * (2 * upper + 1),
        2 * upper + 1 <= 2 * lower_bits * upper_bits,
        2 * lower_bits * upper == lower_bits * (2 * upper),
{
    let t = upper * lower_bits + lower;
    lemma_fundamental_div_mod_converse(t as int, lower_bits as int, upper as int, lower as int);
    assert(lower + lower_bits * (2 * upper + 1) < 2 * lower_bits * upper_bits) by (nonlinear_arith)
        requires
            lower < lower_bits,
            upper < upper_bits,
    ;
    assert(upper * lower_bits + lower < lower_bits * upper_bits) by (nonlinear_arith)
        requires
            lower < lower_bits,
            upper < upper_bits,
    ;
    assert(2 * lower_bits * upper == lower_bits * (2 * upper)) by (nonlinear_arith);
    assert(2 * upper + 1 <= 2 * lower_bits * upper_bits) by (nonlinear_arith)
        requires
            lower < lower_bits,
            upper < upper_bits,
    ;
    assert(lower_bits * (2 * upper + 1) == lower_bits * (2 * upper) + lower_bits)
        by (nonlinear_arith);
}

/// `2^site` and `2^(dimension - site - 1)` as machine integers; their
/// product is `2^(dimension - 1)`.
fn split_dimension(site: usize, dimension: usize) -> (r: (usize, usize))
    requires
        site < dimension,
        dimension < usize::BITS,
    ensures
        r.0 == pow2(site as nat),
        r.1 == pow2((dimension - site - 1) as nat),
        r.0 * r.1 == pow2((dimension - 1) as nat),
        2 * r.0 * r.1 == pow2(dimension as nat),
{
    let upper_shift = dimension - site - 1;
    proof {
        vstd::bits::lemma_usize_pow2_no_overflow(site as nat);
        vstd::bits::lemma_usize_pow2_no_overflow(upper_shift as nat);
        vstd::bits::lemma_usize_shl_is_mul(1, site);
        vstd::bits::lemma_usize_shl_is_mul(1, upper_shift);
        lemma_pow2_adds(site as nat, upper_shift as nat);
        lemma_pow2_adds(1, (dimension - 1) as nat);
        lemma2_to64();
        let a = pow2(site as nat);
        let b = pow2(upper_shift as nat);
        assert(2 * a * b == 2 * (a * b)) by (nonlinear_arith);
    }
    (1usize << site, 1usize << upper_shift)
}

/// Lazy enumeration of the pairs `(&buf[low], &buf[high])` for one bit
/// position, in the order of the module documentation.
pub struct TensorIter<'a, T> {
    buf: &'a [T],
    lower_bits: usize,
    upper_bits: usize,
    lower_index: usize,
    upper_index: usize,
}

impl<'a, T> TensorIter<'a, T> {
    /// The buffer that the pairs are taken from.
    pub closed spec fn buffer(&self) -> Seq<T> {
        self.buf@
    }

    /// `2^site`: the distance between the two elements of a pair.
    pub closed spec fn lower_bits(&self) -> nat {
        self.lower_bits as nat
    }

    /// The number of pairs in the whole enumeration.
    pub closed spec fn count(&self) -> nat {
        (self.lower_bits * self.upper_bits) as nat
    }

    /// The number of pairs handed out so far.
    pub closed spec fn position(&self) -> nat {
        (self.upper_index * self.lower_bits + self.lower_index) as nat
    }

    proof fn lemma_position_bounded(&self)
        requires
            self.wf(),
        ensures
            self.position() <= self.count(),
    {
        if self.upper_index < self.upper_bits {
            lemma_pair_position(
                self.lower_bits as nat,
                self.upper_bits as nat,
                self.lower_index as nat,
                self.upper_index as nat,
            );
        }
    }

    /// The position lies within the enumeration, and the buffer holds at
    /// least the `2 * count()` elements that the pairs address.
    pub closed spec fn wf(&self) -> bool {
        &&& self.lower_bits > 0
        &&& self.upper_bits > 0
        &&& 2 * self.lower_bits * self.upper_bits <= self.buf@.len()
        &&& self.lower_index < self.lower_bits
        &&& self.upper_index <= self.upper_bits
        &&& self.upper_index == self.upper_bits ==> self.lower_index == 0
    }

    /// Enumerates the pairs of `buf` that differ in bit `site`, for a state
    /// of `dimension` qubits.
    pub fn new(buf: &'a [T], site: usize, dimension: usize) -> (r: Self)
        requires
            site < dimension,
            dimension < usize::BITS,
            pow2(dimension as nat) <= buf@.len(),
        ensures
            r.wf(),
            r.buffer() == buf@,
            r.lower_bits() == pow2(site as nat),
            r.count() == pow2((dimension - 1) as nat),
            r.position() == 0,
    {
        let (lower_bits, upper_bits) = split_dimension(site, dimension);
        proof {
            lemma_pow2_pos(site as nat);
            lemma_pow2_pos((dimension - site - 1) as nat);
        }
        TensorIter { buf, lower_bits, upper_bits, lower_index: 0, upper_index: 0 }
    }

    /// The next pair, or `None` once all `count()` pairs have been handed out.
    pub fn next(&mut self) -> (r: Option<(&'a T, &'a T)>)
        requires
            old(self).wf(),
        ensures
            final(self).wf(),
            final(self).buffer() == old(self).buffer(),
            final(self).lower_bits() == old(self).lower_bits(),
            final(self).count() == old(self).count(),
            old(self).position() < old(self).count() ==> {
                &&& r is Some
                &&& *r.unwrap().0 == old(self).buffer()[pair_low(
                    old(self).lower_bits(),
                    old(self).position(),
                ) as int]
                &&& *r.unwrap().1 == old(self).buffer()[pair_high(
                    old(self).lower_bits(),
                    old(self).position(),
                ) as int]
                &&& final(self).position() == old(self).position() + 1
            },
            old(self).position() >= old(self).count() ==> {
                &&& r is None
                &&& final(self).position() == old(self).position()
            },
    {
        if self.upper_index >= self.upper_bits {
            proof {
                assert(self.upper_index * self.lower_bits >= self.upper_bits * self.lower_bits)
                    by (nonlinear_arith)
                    requires
                        self.upper_index >= self.upper_bits,
                ;
            }
            return None;
        }
        let len = self.buf.len();
        proof {
            lemma_pair_position(
                self.lower_bits as nat,
                self.upper_bits as nat,
                self.lower_index as nat,
                self.upper_index as nat,
            );
        }
        let x = &self.buf[self.lower_index + self.lower_bits * (2 * self.upper_index)];
        let y = &self.buf[self.lower_index + self.lower_bits * (2 * self.upper_index + 1)];

        self.lower_index += 1;
        if self.lower_index >= self.lower_bits {
            proof {
                let (u, l) = (self.upper_index as int, self.lower_bits as int);
                assert((u + 1) * l == u * l + l) by (nonlinear_arith);
            }
            self.upper_index += 1;
            self.lower_index = 0;
        }
        Some((x, y))
    }

    /// The pairs not handed out yet, in order.
    pub fn collect_vec(self) -> (r: Vec<(&'a T, &'a T)>)
        requires
            self.wf(),
        ensures
            r@.len() == self.count() - self.position(),
            forall|j: int|
                0 <= j < r@.len() ==> {
                    &&& *r@[j].0 == self.buffer()[pair_low(
                        self.lower_bits(),
                        (self.position() + j) as nat,
                    ) as int]
                    &&& *r@[j].1 == self.buffer()[pair_high(
                        self.lower_bits(),
                        (self.position() + j) as nat,
                    ) as int]
                },
    {
        proof {
            self.lemma_position_bounded();
        }
        let ghost start = self.position();
        let mut it = self;
        let mut pairs: Vec<(&'a T, &'a T)> = Vec::new();
        loop
            invariant
                it.wf(),
                it.buffer() == self.buffer(),
                it.lower_bits() == self.lower_bits(),
                it.count() == self.count(),
                start == self.position(),
                start <= it.position() <= it.count(),
                pairs@.len() == it.position() - start,
                forall|j: int|
                    0 <= j < pairs@.len() ==> {
                        &&& *pairs@[j].0 == self.buffer()[pair_low(
                            self.lower_bits(),
                            (start + j) as nat,
                        ) as int]
                        &&& *pairs@[j].1 == self.buffer()[pair_high(
                            self.lower_bits(),
                            (start + j) as nat,
                        ) as int]
                    },
            ensures
                it.position() == self.count(),
            decreases it.count() - it.position(),
        {
            proof {
                it.lemma_position_bounded();
            }
            match it.next() {
                Some(p) => {
                    pairs.push(p);
                },
                None => {
                    assert(it.position() == self.count());
                    break ;
                },
            }
        }
        pairs
    }
}

/// Lazy enumeration of the pairs `(&mut buf[low], &mut buf[high])` for one
/// bit position, in the order of the module documentation. The two elements
/// of a pair, and the elements of different pairs, never overlap: the buffer
/// is split into blocks of `2 * lower_bits` elements and each block into its
/// low and high halves. When a block is opened its low half is split into
/// single elements at once; its high half hands out its elements front
/// first. The contracts say where each element of the buffer ends up: what
/// is written through a pair lands at the pair's two positions.
pub struct TensorIterMut<'a, T> {
    rest: Option<&'a mut [T]>,
    low: Vec<&'a mut T>,
    high: Option<&'a mut [T]>,
    lower_bits: usize,
    upper_bits: usize,
    lower_index: usize,
    upper_index: usize,
    buf: Ghost<Seq<T>>,
}

impl<'a, T> TensorIterMut<'a, T> {
    /// The contents of the buffer when the enumeration was made.
    pub closed spec fn buffer(&self) -> Seq<T> {
        self.buf@
    }

    /// `2^site`: the distance between the two elements of a pair.
    pub closed spec fn lower_bits(&self) -> nat {
        self.lower_bits as nat
    }

    /// The number of pairs in the whole enumeration.
    pub closed spec fn count(&self) -> nat {
        (self.lower_bits * self.upper_bits) as nat
    }

    /// The number of pairs handed out so far.
    pub closed spec fn position(&self) -> nat {
        (self.upper_index * self.lower_bits + self.lower_index) as nat
    }

    /// The number of pairs handed out from the open block; 0 when no block
    /// is open.
    pub closed spec fn block_offset(&self) -> nat {
        self.lower_index as nat
    }

    /// The part of the buffer after the open block, or from the next block
    /// when none is open.
    pub closed spec fn rest_piece(&self) -> &'a mut [T] {
        self.rest.unwrap()
    }

    /// The elements of the open block's high half not handed out yet.
    pub closed spec fn high_piece(&self) -> &'a mut [T] {
        self.high.unwrap()
    }

    /// The elements of the open block's low half not handed out yet, last
    /// one first.
    pub closed spec fn low_pieces(&self) -> Seq<&'a mut T> {
        self.low@
    }

    spec fn block_start(&self) -> int {
        2 * self.lower_bits * self.upper_index
    }

    /// The position lies within the enumeration, the buffer holds at least
    /// the `2 * count()` elements that the pairs address, and the pieces not
    /// handed out yet hold the buffer's elements that they stand for.
    pub closed spec fn wf(&self) -> bool {
        let start = self.block_start();
        let lb = self.lower_bits as int;
        let li = self.lower_index as int;
        &&& self.lower_bits > 0
        &&& self.upper_bits > 0
        &&& 2 * self.lower_bits * self.upper_bits <= self.buf@.len()
        &&& self.lower_index < self.lower_bits
        &&& self.upper_index <= self.upper_bits
        &&& self.upper_index == self.upper_bits ==> self.lower_index == 0
        &&& self.rest is Some
        &&& self.lower_index == 0 ==> {
            &&& self.low@.len() == 0
            &&& (*self.rest.unwrap())@ == self.buf@.subrange(start, self.buf@.len() as int)
        }
        &&& self.lower_index > 0 ==> {
            &&& self.high is Some
            &&& self.low@.len() == lb - li
            &&& (*self.rest.unwrap())@ == self.buf@.subrange(start + 2 * lb, self.buf@.len() as int)
            &&& (*self.high.unwrap())@ == self.buf@.subrange(start + lb + li, start + 2 * lb)
            &&& forall|j: int|
                0 <= j < lb - li ==> *(#[trigger] self.low@[j]) == self.buf@[start + lb - 1 - j]
        }
    }

    proof fn lemma_position_bounded(&self)
        requires
            self.wf(),
        ensures
            self.position() <= self.count(),
    {
        if self.upper_index < self.upper_bits {
            lemma_pair_position(
                self.lower_bits as nat,
                self.upper_bits as nat,
                self.lower_index as nat,
                self.upper_index as nat,
            );
        }
    }

    /// Enumerates the pairs of `buf` that differ in bit `site`, for a state
    /// of `dimension` qubits. The buffer ends up as its first piece does.
    pub fn new(buf: &'a mut [T], site: usize, dimension: usize) -> (r: Self)
        requires
            site < dimension,
            dimension < usize::BITS,
            pow2(dimension as nat) <= old(buf)@.len(),
        ensures
            r.wf(),
            r.buffer() == old(buf)@,
            (*final(buf))@ == (*final(r.rest_piece()))@,
            r.lower_bits() == pow2(site as nat),
            r.count() == pow2((dimension - 1) as nat),
            r.position() == 0,
            r.block_offset() == 0,
    {
        let (lower_bits, upper_bits) = split_dimension(site, dimension);
        proof {
            lemma_pow2_pos(site as nat);
            lemma_pow2_pos((dimension - site - 1) as nat);
        }
        let ghost contents = buf@;
        assert(contents.subrange(0, contents.len() as int) == contents);
        assert(0 * lower_bits == 0 && 2 * lower_bits * 0 == 0) by (nonlinear_arith);
        TensorIterMut {
            rest: Some(buf),
            low: Vec::new(),
            high: None,
            lower_bits,
            upper_bits,
            lower_index: 0,
            upper_index: 0,
            buf: Ghost(contents),
        }
    }

    /// The element of a one-element slice.
    fn only_element(s: &'a mut [T]) -> (r: &'a mut T)
        requires
            old(s)@.len() == 1,
        ensures
            *r == old(s)@[0],
            (*final(s))@ == seq![*final(r)],
    {
        s.first_mut().unwrap()
    }

    /// Splits the low half of a block into its elements, last one first.
    fn split_low(half: &'a mut [T]) -> (r: Vec<&'a mut T>)
        requires
            old(half)@.len() > 0,
        ensures
            r@.len() == old(half)@.len(),
            forall|j: int|
                0 <= j < r@.len() ==> *(#[trigger] r@[j]) == old(half)@[r@.len() - 1 - j],
            (*final(half))@ == Seq::new(r@.len(), |k: int| *final(r@[r@.len() - 1 - k])),
    {
        let ghost n = half@.len();
        let ghost whole = half@;
        let mut cur = half;
        let mut parts: Vec<&'a mut T> = Vec::new();
        assert((*final(half))@ =~= (*final(cur))@ + Seq::new(
            parts@.len(),
            |k: int| *final(parts@[parts@.len() - 1 - k]),
        ));
        while cur.len() > 1
            invariant
                whole.len() == n,
                cur@.len() == n - parts@.len(),
                cur@ == whole.subrange(0, n - parts@.len()),
                parts@.len() < n,
                forall|j: int|
                    0 <= j < parts@.len() ==> *(#[trigger] parts@[j]) == whole[n - 1 - j],
                (*final(half))@ == (*final(cur))@ + Seq::new(
                    parts@.len(),
                    |k: int| *final(parts@[parts@.len() - 1 - k]),
                ),
            decreases cur@.len(),
        {
            assert(cur@.len() == n - parts@.len());
            let m = cur.len();
            assert(m == cur@.len());
            let ghost cur_now = cur@;
            let (front, one) = cur.split_at_mut(m - 1);
            assert(front@ == cur_now.subrange(0, m - 1));
            assert(front@ =~= whole.subrange(0, n - parts@.len() - 1));
            let x = Self::only_element(one);
            let ghost before = parts@;
            cur = front;
            parts.push(x);
            assert(Seq::new(parts@.len(), |k: int| *final(parts@[parts@.len() - 1 - k])) =~= seq![
                *final(parts@.last()),
            ] + Seq::new(before.len(), |k: int| *final(before[before.len() - 1 - k])));
        }
        let x = Self::only_element(cur);
        let ghost before = parts@;
        parts.push(x);
        assert(Seq::new(parts@.len(), |k: int| *final(parts@[parts@.len() - 1 - k])) =~= seq![
            *final(parts@.last()),
        ] + Seq::new(before.len(), |k: int| *final(before[before.len() - 1 - k])));
        parts
    }

    /// The next pair, or `None` once all `count()` pairs have been handed
    /// out. Where the elements go: opening a block splits the old
    /// `rest_piece()` into the pair's low element, the low elements still
    /// held, the pair's high element, the high elements still held and the
    /// new `rest_piece()`; inside a block, the low element is the last of
    /// the low elements held and the high element is the front of the old
    /// `high_piece()`.
    pub fn next(&mut self) -> (r: Option<(&'a mut T, &'a mut T)>)
        requires
            old(self).wf(),
        ensures
            final(self).wf(),
            final(self).buffer() == old(self).buffer(),
            final(self).lower_bits() == old(self).lower_bits(),
            final(self).count() == old(self).count(),
            final(self).block_offset() > 0 ==> final(self).low_pieces().len()
                == final(self).lower_bits() - final(self).block_offset(),
            old(self).position() < old(self).count() ==> {
                &&& r is Some
                &&& final(self).block_offset() == (if old(self).block_offset() + 1
                    == old(self).lower_bits() {
                    0
                } else {
                    old(self).block_offset() + 1
                })
                &&& *r.unwrap().0 == old(self).buffer()[pair_low(
                    old(self).lower_bits(),
                    old(self).position(),
                ) as int]
                &&& *r.unwrap().1 == old(self).buffer()[pair_high(
                    old(self).lower_bits(),
                    old(self).position(),
                ) as int]
                &&& final(self).position() == old(self).position() + 1
                &&& old(self).block_offset() == 0 ==> (*final(old(self).rest_piece()))@ == seq![
                    *final(r.unwrap().0),
                ] + Seq::new(
                    (old(self).lower_bits() - 1) as nat,
                    |k: int| *final(final(self).low_pieces()[old(self).lower_bits() - 2 - k]),
                ) + seq![*final(r.unwrap().1)] + (if final(self).block_offset() > 0 {
                    (*final(final(self).high_piece()))@
                } else {
                    Seq::empty()
                }) + (*final(final(self).rest_piece()))@
                &&& old(self).block_offset() > 0 ==> {
                    &&& *r.unwrap().0 == *old(self).low_pieces().last()
                    &&& *final(r.unwrap().0) == *final(old(self).low_pieces().last())
                    &&& final(self).low_pieces() == old(self).low_pieces().drop_last()
                    &&& final(self).rest_piece() == old(self).rest_piece()
                    &&& (*final(old(self).high_piece()))@ == seq![*final(r.unwrap().1)] + (if final(self).block_offset() > 0 {
                        (*final(final(self).high_piece()))@
                    } else {
                        Seq::empty()
                    })
                }
            },
            old(self).position() >= old(self).count() ==> {
                &&& r is None
                &&& final(self).position() == old(self).position()
                &&& *final(self) == *old(self)
            },
    {
        if self.upper_index >= self.upper_bits {
            proof {
                assert(self.upper_index * self.lower_bits >= self.upper_bits * self.lower_bits)
                    by (nonlinear_arith)
                    requires
                        self.upper_index >= self.upper_bits,
                ;
            }
            return None;
        }
        proof {
            lemma_pair_position(
                self.lower_bits as nat,
                self.upper_bits as nat,
                self.lower_index as nat,
                self.upper_index as nat,
            );
            assert(2 * self.lower_bits * (self.upper_index + 1) <= 2 * self.lower_bits
                * self.upper_bits) by (nonlinear_arith)
                requires
                    self.upper_index < self.upper_bits,
            ;
            assert(2 * self.lower_bits * (self.upper_index + 1) == 2 * self.lower_bits
                * self.upper_index + 2 * self.lower_bits) by (nonlinear_arith);
        }
        let ghost contents = self.buf@;
        let ghost start = self.block_start();
        let ghost li = self.lower_index as int;
        let ghost lb = self.lower_bits as int;
        let ghost opened = self.lower_index == 0;
        let ghost old_rest_fin = (*final(self.rest.unwrap()))@;
        if self.lower_index == 0 {
            let rest = self.rest.take().unwrap();
            let n = rest.len();
            assert(n == contents.len() - start);
            let (block, rest) = rest.split_at_mut(2 * self.lower_bits);
            let (low, high) = block.split_at_mut(self.lower_bits);
            assert(low@ =~= contents.subrange(start, start + lb));
            assert(high@ =~= contents.subrange(start + lb, start + 2 * lb));
            assert(rest@ =~= contents.subrange(start + 2 * lb, contents.len() as int));
            assert(old_rest_fin =~= (*final(low))@ + (*final(high))@ + (*final(rest))@);
            let low = Self::split_low(low);
            self.rest = Some(rest);
            self.low = low;
            self.high = Some(high);
            assert(old_rest_fin =~= Seq::new(
                lb as nat,
                |k: int| *final(self.low@[lb - 1 - k]),
            ) + (*final(self.high.unwrap()))@ + (*final(self.rest.unwrap()))@);
        }
        let ghost low_before = self.low@;
        assert(!opened ==> low_before == old(self).low@);
        let x = self.low.pop().unwrap();
        assert(x == low_before.last());
        assert(self.low@ == low_before.drop_last());
        let high = self.high.take().unwrap();
        let ghost high_fin = (*final(high))@;
        let y;
        if self.lower_index + 1 < self.lower_bits {
            let (one, high) = high.split_at_mut(1);
            assert(high@ =~= contents.subrange(start + lb + li + 1, start + 2 * lb));
            y = Self::only_element(one);
            assert(high_fin =~= seq![*final(y)] + (*final(high))@);
            self.high = Some(high);
        } else {
            y = Self::only_element(high);
        }
        assert(*x == contents[pair_low(lb as nat, self.position()) as int]);
        assert(*y == contents[pair_high(lb as nat, self.position()) as int]);
        assert(opened ==> Seq::new(lb as nat, |k: int| *final(low_before[lb - 1 - k])) =~= seq![
            *final(x),
        ] + Seq::new((lb - 1) as nat, |k: int| *final(self.low@[lb - 2 - k])));

        self.lower_index += 1;
        if self.lower_index >= self.lower_bits {
            proof {
                let (u, l) = (self.upper_index as int, self.lower_bits as int);
                assert((u + 1) * l == u * l + l) by (nonlinear_arith);
            }
            self.upper_index += 1;
            self.lower_index = 0;
        }
        Some((x, y))
    }

    /// Whether `fin`, from the start of the open block (or of the next block),
    /// is made of what the pieces not handed out will hold.
    spec fn lands(&self, fin: Seq<T>, rest: Seq<T>, high: Seq<T>, low: Seq<T>) -> bool {
        let st = self.block_start();
        let lb = self.lower_bits as int;
        let li = self.lower_index as int;
        &&& self.lower_index == 0 ==> {
            &&& fin.len() == st + rest.len()
            &&& fin.subrange(st, fin.len() as int) == rest
        }
        &&& self.lower_index > 0 ==> {
            &&& fin.len() == st + lb + li + high.len() + rest.len()
            &&& fin.subrange(st + li, st + lb) == low
            &&& fin.subrange(st + lb + li, fin.len() as int) == high + rest
        }
    }

    /// The pairs not handed out yet, in order. For an enumeration that has
    /// not started, what is written through pair `t` lands at its two
    /// positions of the buffer's final contents (`new` ties those to
    /// `rest_piece()`).
    pub fn collect_vec(self) -> (r: Vec<(&'a mut T, &'a mut T)>)
        requires
            self.wf(),
        ensures
            r@.len() == self.count() - self.position(),
            forall|j: int|
                0 <= j < r@.len() ==> {
                    &&& *r@[j].0 == self.buffer()[pair_low(
                        self.lower_bits(),
                        (self.position() + j) as nat,
                    ) as int]
                    &&& *r@[j].1 == self.buffer()[pair_high(
                        self.lower_bits(),
                        (self.position() + j) as nat,
                    ) as int]
                },
            self.position() == 0 ==> forall|j: int|
                0 <= j < r@.len() ==> {
                    &&& *final(#[trigger] r@[j].0) == (*final(self.rest_piece()))@[pair_low(
                        self.lower_bits(),
                        j as nat,
                    ) as int]
                    &&& *final(r@[j].1) == (*final(self.rest_piece()))@[pair_high(self.lower_bits(), j as nat) as int]
                },
    {
        proof {
            self.lemma_position_bounded();
        }
        let ghost start = self.position();
        let ghost lb = self.lower_bits as int;
        proof {
            if start == 0 {
                let (u, l, i) = (self.upper_index as int, self.lower_bits as int, self.lower_index as int);
                assert(u == 0 && i == 0) by (nonlinear_arith)
                    requires
                        u * l + i == 0,
                        l > 0,
                        u >= 0,
                        i >= 0,
                ;
                assert(2 * l * u == 0);
                let fin = (*final(self.rest_piece()))@;
                assert(fin =~= fin.subrange(0, fin.len() as int));
            }
        }
        let mut it = self;
        let mut pairs: Vec<(&'a mut T, &'a mut T)> = Vec::new();
        loop
            invariant
                it.wf(),
                it.buffer() == self.buffer(),
                it.lower_bits() == self.lower_bits(),
                lb == self.lower_bits(),
                it.count() == self.count(),
                start == self.position(),
                start <= it.position() <= it.count(),
                pairs@.len() == it.position() - start,
                forall|j: int|
                    0 <= j < pairs@.len() ==> {
                        &&& *pairs@[j].0 == self.buffer()[pair_low(
                            self.lower_bits(),
                            (start + j) as nat,
                        ) as int]
                        &&& *pairs@[j].1 == self.buffer()[pair_high(
                            self.lower_bits(),
                            (start + j) as nat,
                        ) as int]
                    },
                start == 0 ==> it.lands(
                    (*final(self.rest_piece()))@,
                    (*final(it.rest_piece()))@,
                    (*final(it.high_piece()))@,
                    Seq::new(
                        (lb - it.block_offset()) as nat,
                        |k: int| *final(it.low_pieces()[lb - it.block_offset() - 1 - k]),
                    ),
                ),
                start == 0 ==> forall|j: int|
                    0 <= j < pairs@.len() ==> {
                        &&& *final(#[trigger] pairs@[j].0) == (*final(self.rest_piece()))@[pair_low(
                            self.lower_bits(),
                            j as nat,
                        ) as int]
                        &&& *final(pairs@[j].1) == (*final(self.rest_piece()))@[pair_high(
                            self.lower_bits(),
                            j as nat,
                        ) as int]
                    },
            ensures
                it.position() == self.count(),
            decreases it.count() - it.position(),
        {
            proof {
                it.lemma_position_bounded();
                if it.upper_index < it.upper_bits {
                    lemma_pair_position(
                        it.lower_bits as nat,
                        it.upper_bits as nat,
                        it.lower_index as nat,
                        it.upper_index as nat,
                    );
                }
            }
            let ghost before = it;
            let ghost li = it.lower_index as int;
            let ghost st = it.block_start();
            match it.next() {
                Some(p) => {
                    proof {
                        if start == 0 {
                            let fin = (*final(self.rest_piece()))@;
                            let lown = Seq::new(
                                (lb - it.block_offset()) as nat,
                                |k: int| *final(it.low_pieces()[lb - it.block_offset() - 1 - k]),
                            );
                            let highn = (*final(it.high_piece()))@;
                            let restn = (*final(it.rest_piece()))@;
                            let (u0, u1, l1) = (
                                before.upper_index as int,
                                it.upper_index as int,
                                it.lower_index as int,
                            );
                            if li + 1 < lb {
                                assert(u1 == u0) by (nonlinear_arith)
                                    requires
                                        u1 * lb + l1 == u0 * lb + li + 1,
                                        l1 == li + 1,
                                        lb > 0,
                                ;
                            } else {
                                assert(u1 == u0 + 1) by (nonlinear_arith)
                                    requires
                                        u1 * lb + l1 == u0 * lb + li + 1,
                                        l1 == 0,
                                        li + 1 == lb,
                                        lb > 0,
                                ;
                            }
                            if before.upper_index >= before.upper_bits {
                                assert(before.upper_index * lb >= before.upper_bits * lb)
                                    by (nonlinear_arith)
                                    requires
                                        before.upper_index >= before.upper_bits,
                                        lb > 0,
                                ;
                            }
                            lemma_pair_position(
                                lb as nat,
                                before.upper_bits as nat,
                                li as nat,
                                before.upper_index as nat,
                            );
                            assert(pair_low(lb as nat, before.position()) == st + li);
                            assert(pair_high(lb as nat, before.position()) == st + lb + li);
                            if li == 0 {
                                let old_rest = (*final(before.rest_piece()))@;
                                assert(fin.subrange(st, fin.len() as int) == old_rest);
                                assert(fin.subrange(st, fin.len() as int)[0] == fin[st]);
                                assert(old_rest[0] == *final(p.0));
                                assert(fin[st] == *final(p.0));
                                assert(fin.subrange(st, fin.len() as int)[lb] == fin[st + lb]);
                                assert(old_rest[lb] == *final(p.1));
                                assert(fin[st + lb] == *final(p.1));
                                if lb > 1 {
                                    assert forall|k: int| 0 <= k < lb - 1 implies fin.subrange(
                                        st + 1,
                                        st + lb,
                                    )[k] == lown[k] by {
                                        assert(fin.subrange(st, fin.len() as int)[1 + k] == fin[st
                                            + 1 + k]);
                                        assert(old_rest[1 + k] == lown[k]);
                                    }
                                    assert(fin.subrange(st + 1, st + lb) =~= lown);
                                    assert(old_rest.subrange(lb + 1, old_rest.len() as int)
                                        =~= highn + restn);
                                    assert forall|k: int|
                                        0 <= k < fin.len() - (st + lb + 1) implies fin.subrange(
                                        st + lb + 1,
                                        fin.len() as int,
                                    )[k] == (highn + restn)[k] by {
                                        assert(fin.subrange(st, fin.len() as int)[lb + 1 + k]
                                            == fin[st + lb + 1 + k]);
                                        assert(old_rest.subrange(lb + 1, old_rest.len() as int)[k]
                                            == old_rest[lb + 1 + k]);
                                    }
                                    assert(fin.subrange(st + lb + 1, fin.len() as int) =~= highn
                                        + restn);
                                } else {
                                    assert forall|k: int|
                                        0 <= k < fin.len() - (st + 2) implies fin.subrange(
                                        st + 2,
                                        fin.len() as int,
                                    )[k] == restn[k] by {
                                        assert(fin.subrange(st, fin.len() as int)[2 + k] == fin[st
                                            + 2 + k]);
                                        assert(old_rest[2 + k] == restn[k]);
                                    }
                                    assert(fin.subrange(st + 2, fin.len() as int) =~= restn);
                                    assert(it.block_start() == st + 2 * lb) by (nonlinear_arith)
                                        requires
                                            it.block_start() == 2 * lb * (before.upper_index + 1),
                                            st == 2 * lb * before.upper_index,
                                    ;
                                }
                            } else {
                                let lowo = Seq::new(
                                    (lb - li) as nat,
                                    |k: int| *final(before.low_pieces()[lb - li - 1 - k]),
                                );
                                assert(fin.subrange(st + li, st + lb) == lowo);
                                assert(lowo[0] == *final(before.low_pieces().last()));
                                assert(fin.subrange(st + li, st + lb)[0] == fin[st + li]);
                                assert(fin[st + li] == *final(p.0));
                                let higho = (*final(before.high_piece()))@;
                                assert(fin.subrange(st + lb + li, fin.len() as int) == higho + restn);
                                assert(fin.subrange(st + lb + li, fin.len() as int)[0] == fin[st + lb + li]);
                                assert(fin[st + lb + li] == *final(p.1));
                                if li + 1 < lb {
                                    assert forall|k: int| 0 <= k < lb - li - 1 implies fin.subrange(
                                        st + li + 1,
                                        st + lb,
                                    )[k] == lown[k] by {
                                        assert(fin.subrange(st + li, st + lb)[1 + k] == fin[st + li
                                            + 1 + k]);
                                        assert(lowo[1 + k] == lown[k]);
                                    }
                                    assert(fin.subrange(st + li + 1, st + lb) =~= lown);
                                    assert((higho + restn).subrange(1, (higho + restn).len() as int)
                                        =~= highn + restn);
                                    assert forall|k: int|
                                        0 <= k < fin.len() - (st + lb + li + 1) implies fin.subrange(
                                        st + lb + li + 1,
                                        fin.len() as int,
                                    )[k] == (highn + restn)[k] by {
                                        assert(fin.subrange(st + lb + li, fin.len() as int)[1 + k]
                                            == fin[st + lb + li + 1 + k]);
                                        assert((higho + restn).subrange(
                                            1,
                                            (higho + restn).len() as int,
                                        )[k] == (higho + restn)[1 + k]);
                                    }
                                    assert(fin.subrange(st + lb + li + 1, fin.len() as int)
                                        =~= highn + restn);
                                } else {
                                    assert forall|k: int|
                                        0 <= k < fin.len() - (st + 2 * lb) implies fin.subrange(
                                        st + 2 * lb,
                                        fin.len() as int,
                                    )[k] == restn[k] by {
                                        assert(fin.subrange(st + lb + li, fin.len() as int)[1 + k]
                                            == fin[st + lb + li + 1 + k]);
                                        assert((higho + restn)[1 + k] == restn[k]);
                                    }
                                    assert(fin.subrange(st + 2 * lb, fin.len() as int) =~= restn);
                                    assert(it.block_start() == st + 2 * lb) by (nonlinear_arith)
                                        requires
                                            it.block_start() == 2 * lb * (before.upper_index + 1),
                                            st == 2 * lb * before.upper_index,
                                    ;
                                }
                            }
                        }
                    }
                    let ghost pg = p;
                    pairs.push(p);
                    assert(pairs@.last() == pg);
                },
                None => {
                    break ;
                },
            }
        }
        pairs
    }
}

} // verus!
