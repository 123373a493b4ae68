use vstd::prelude::*;

verus! {

/// Number of 64-bit words backing a `BitSet`.
pub const WORD_COUNT: usize = 3;

/// Number of bits per backing word.
pub const WORD_BITS: usize = 64;

/// Fixed capacity of a `BitSet`: the largest node count a graph may have.
pub const CAPACITY: usize = 192;

/// Whether bit `j` of word `w` is one.
pub open spec fn word_bit(w: u64, j: u64) -> bool {
    (w >> j) & 1u64 == 1u64
}

/// A fixed-capacity set of small integers (node or color ids), stored as a
/// packed array of 64-bit words. Its view is the sequence of `CAPACITY`
/// membership bits.
pub struct BitSet {
    data: Vec<u64>,
}

impl View for BitSet {
    type V = Seq<bool>;

    closed spec fn view(&self) -> Seq<bool> {
        Seq::new(CAPACITY as nat, |i: int| word_bit(self.data@[i / WORD_BITS as int], (i % WORD_BITS as int) as u64))
    }
}

impl BitSet {
    /// The backing words are always present in full.
    pub closed spec fn wf(self) -> bool {
        self.data@.len() == WORD_COUNT
    }

    /// The empty set.
    pub fn new() -> (r: BitSet)
        ensures
            r.wf(),
            r@ == empty_bits(),
    {
        let mut data: Vec<u64> = Vec::new();
        data.push(0);
        data.push(0);
        data.push(0);
        let r = BitSet { data };
        proof {
            assert(forall|j: u64| j < 64 ==> !word_bit(0u64, j)) by (bit_vector);
            assert forall|i: int| 0 <= i < CAPACITY implies !(r@[i]) by {
                let w = r.data@[i / WORD_BITS as int];
                assert(w == 0u64);
                assert(((i % 64) as u64) < 64);
            }
            assert(r@ =~= empty_bits());
        }
        r
    }

    /// Number of backing words.
    pub fn array_size(&self) -> (r: usize)
        requires
            self.wf(),
        ensures
            r == WORD_COUNT,
    {
        self.data.len()
    }

    /// Number of bits in one backing word.
    pub fn element_bit_size(&self) -> (r: usize)
        ensures
            r == WORD_BITS,
    {
        64
    }

    /// Whether `offset` lies within the fixed capacity.
    pub fn check_bounds(&self, offset: usize) -> (r: bool)
        requires
            self.wf(),
        ensures
            r == (offset < CAPACITY),
    {
        offset < self.array_size() * self.element_bit_size()
    }

    /// Membership test for `offset`.
    pub fn contains(&self, offset: usize) -> (r: bool)
        requires
            self.wf(),
            offset < CAPACITY,
        ensures
            r == self@[offset as int],
    {
        let index = offset / 64;
        let bit: u64 = (offset % 64) as u64;
        let w = self.data[index];
        (w >> bit) & 1u64 == 1u64
    }

    /// Adds `offset` to the set.
    pub fn set(&mut self, offset: usize)
        requires
            old(self).wf(),
            offset < CAPACITY,
        ensures
            final(self).wf(),
            final(self)@ == old(self)@.update(offset as int, true),
    {
        let index = offset / 64;
        let bit: u64 = (offset % 64) as u64;
        let w = self.data[index];
        let w2 = w | (1u64 << bit);
        self.data.set(index, w2);
        proof {
            assert(forall|wa: u64, j: u64, b: u64| j < 64 && b < 64 ==>
                word_bit(wa | (1u64 << b), j) == (word_bit(wa, j) || j == b)) by (bit_vector);
            assert forall|i: int| 0 <= i < CAPACITY implies
                self@[i] == old(self)@.update(offset as int, true)[i] by {
                if i / 64 == offset as int / 64 {
                    assert((i % 64) as u64 == (offset as int % 64) as u64 <==> i == offset as int);
                } else {
                    assert(i != offset as int);
                }
            }
            assert(self@ =~= old(self)@.update(offset as int, true));
        }
    }

    /// Removes `offset` from the set.
    pub fn reset(&mut self, offset: usize)
        requires
            old(self).wf(),
            offset < CAPACITY,
        ensures
            final(self).wf(),
            final(self)@ == old(self)@.update(offset as int, false),
    {
        let index = offset / 64;
        let bit: u64 = (offset % 64) as u64;
        let w = self.data[index];
        let w2 = w & !(1u64 << bit);
        self.data.set(index, w2);
        proof {
            assert(forall|wa: u64, j: u64, b: u64| j < 64 && b < 64 ==>
                word_bit(wa & !(1u64 << b), j) == (word_bit(wa, j) && j != b)) by (bit_vector);
            assert forall|i: int| 0 <= i < CAPACITY implies
                self@[i] == old(self)@.update(offset as int, false)[i] by {
                if i / 64 == offset as int / 64 {
                    assert((i % 64) as u64 == (offset as int % 64) as u64 <==> i == offset as int);
                } else {
                    assert(i != offset as int);
                }
            }
            assert(self@ =~= old(self)@.update(offset as int, false));
        }
    }
    /// The set of elements of `self` that are not in `other`.
    pub fn difference(&self, other: &BitSet) -> (r: BitSet)
        requires
            self.wf(),
            other.wf(),
        ensures
            r.wf(),
            r@ == bits_difference(self@, other@),
    {
        let mut data: Vec<u64> = Vec::new();
        let mut index: usize = 0;
        while index < WORD_COUNT
            invariant
                self.wf(),
                other.wf(),
                index <= WORD_COUNT,
                data@.len() == index,
                forall|k: int| 0 <= k < index ==> data@[k] == self.words()[k] & !other.words()[k],
            decreases WORD_COUNT - index,
        {
            data.push(self.data[index] & !other.data[index]);
            index += 1;
        }
        let r = BitSet { data };
        proof {
            assert(forall|wa: u64, wb: u64, j: u64| j < 64 ==>
                word_bit(wa & !wb, j) == (word_bit(wa, j) && !word_bit(wb, j))) by (bit_vector);
            assert(r@ =~= bits_difference(self@, other@));
        }
        r
    }

    /// The set of elements in both `self` and `other`.
    pub fn intersection(&self, other: &BitSet) -> (r: BitSet)
        requires
            self.wf(),
            other.wf(),
        ensures
            r.wf(),
            r@ == bits_intersection(self@, other@),
    {
        let mut data: Vec<u64> = Vec::new();
        let mut index: usize = 0;
        while index < WORD_COUNT
            invariant
                self.wf(),
                other.wf(),
                index <= WORD_COUNT,
                data@.len() == index,
                forall|k: int| 0 <= k < index ==> data@[k] == self.words()[k] & other.words()[k],
            decreases WORD_COUNT - index,
        {
            data.push(self.data[index] & other.data[index]);
            index += 1;
        }
        let r = BitSet { data };
        proof {
            assert(forall|wa: u64, wb: u64, j: u64| j < 64 ==>
                word_bit(wa & wb, j) == (word_bit(wa, j) && word_bit(wb, j))) by (bit_vector);
            assert(r@ =~= bits_intersection(self@, other@));
        }
        r
    }

    /// The set of elements in `self` or `other`.
    pub fn union(&self, other: &BitSet) -> (r: BitSet)
        requires
            self.wf(),
            other.wf(),
        ensures
            r.wf(),
            r@ == bits_union(self@, other@),
    {
        let mut data: Vec<u64> = Vec::new();
        let mut index: usize = 0;
        while index < WORD_COUNT
            invariant
                self.wf(),
                other.wf(),
                index <= WORD_COUNT,
                data@.len() == index,
                forall|k: int| 0 <= k < index ==> data@[k] == self.words()[k] | other.words()[k],
            decreases WORD_COUNT - index,
        {
            data.push(self.data[index] | other.data[index]);
            index += 1;
        }
        let r = BitSet { data };
        proof {
            assert(forall|wa: u64, wb: u64, j: u64| j < 64 ==>
                word_bit(wa | wb, j) == (word_bit(wa, j) || word_bit(wb, j))) by (bit_vector);
            assert(r@ =~= bits_union(self@, other@));
        }
        r
    }

    /// The backing words, for in-module proofs.
    spec fn words(self) -> Seq<u64> {
        self.data@
    }

    /// How many elements the set holds.
    pub fn count_ones(&self) -> (r: usize)
        requires
            self.wf(),
        ensures
            r == count_trues(self@),
    {
        let mut count: usize = 0;
        let mut offset: usize = 0;
        while offset < CAPACITY
            invariant
                self.wf(),
                offset <= CAPACITY,
                count <= offset,
                count == count_trues(self@.take(offset as int)),
            decreases CAPACITY - offset,
        {
            proof {
                assert(self@.take(offset + 1).drop_last() =~= self@.take(offset as int));
                assert(self@.take(offset + 1).last() == self@[offset as int]);
            }
            if self.contains(offset) {
                count += 1;
            }
            offset += 1;
        }
        proof {
            assert(self@.take(CAPACITY as int) =~= self@);
        }
        count
    }

    /// Whether the set holds any element at all.
    pub fn any(&self) -> (r: bool)
        requires
            self.wf(),
        ensures
            r == exists|i: int| 0 <= i < CAPACITY && self@[i],
    {
        let mut offset: usize = 0;
        while offset < CAPACITY
            invariant
                self.wf(),
                offset <= CAPACITY,
                forall|j: int| 0 <= j < offset ==> !self@[j],
            decreases CAPACITY - offset,
        {
            if self.contains(offset) {
                return true;
            }
            offset += 1;
        }
        false
    }

    /// An iterator over the members of the set, in increasing order.
    pub fn iter_ones<'a>(&'a self) -> (it: BitSetIterator<'a>)
        requires
            self.wf(),
        ensures
            it.wf(),
            it.bits() == self@,
            it.pos_spec() == 0,
    {
        BitSetIterator { bitset: self, pos: 0 }
    }
}

/// Walks the members of a `BitSet` from the smallest to the largest.
pub struct BitSetIterator<'a> {
    bitset: &'a BitSet,
    pos: usize,
}

impl<'a> BitSetIterator<'a> {
    /// The membership bits being walked.
    pub closed spec fn bits(self) -> Seq<bool> {
        self.bitset@
    }

    /// The first offset not yet examined.
    pub closed spec fn pos_spec(self) -> int {
        self.pos as int
    }

    /// The underlying set is well-formed and the cursor is within capacity.
    pub closed spec fn wf(self) -> bool {
        self.bitset.wf() && self.pos <= CAPACITY
    }

    /// Returns the smallest member not yet examined, or `None` when no
    /// member is left.
    pub fn next(&mut self) -> (r: Option<usize>)
        requires
            old(self).wf(),
        ensures
            final(self).wf(),
            final(self).bits() == old(self).bits(),
            r matches Some(i) ==> old(self).pos_spec() <= i < CAPACITY
                && old(self).bits()[i as int]
                && (forall|j: int| old(self).pos_spec() <= j < i ==> !old(self).bits()[j])
                && final(self).pos_spec() == i + 1,
            r is None ==> (forall|j: int| old(self).pos_spec() <= j < CAPACITY ==> !old(self).bits()[j])
                && final(self).pos_spec() == CAPACITY,
    {
        while self.pos < CAPACITY
            invariant
                self.wf(),
                self.bitset == old(self).bitset,
                old(self).pos_spec() <= self.pos_spec(),
                forall|j: int| old(self).pos_spec() <= j < self.pos_spec() ==> !old(self).bits()[j],
            decreases CAPACITY - self.pos_spec(),
        {
            let offset = self.pos;
            self.pos = self.pos + 1;
            if self.bitset.contains(offset) {
                return Some(offset);
            }
        }
        None
    }
}

/// The view of a bit-set always holds exactly `CAPACITY` membership bits.
pub broadcast proof fn lemma_bitset_view_len(b: BitSet)
    ensures
        (#[trigger] b@).len() == CAPACITY,
{
}

/// The all-false membership sequence: the view of the empty set.
pub open spec fn empty_bits() -> Seq<bool> {
    Seq::new(CAPACITY as nat, |i: int| false)
}

/// Pointwise difference of two membership sequences.
pub open spec fn bits_difference(a: Seq<bool>, b: Seq<bool>) -> Seq<bool> {
    Seq::new(CAPACITY as nat, |i: int| a[i] && !b[i])
}

/// Pointwise intersection of two membership sequences.
pub open spec fn bits_intersection(a: Seq<bool>, b: Seq<bool>) -> Seq<bool> {
    Seq::new(CAPACITY as nat, |i: int| a[i] && b[i])
}

/// Pointwise union of two membership sequences.
pub open spec fn bits_union(a: Seq<bool>, b: Seq<bool>) -> Seq<bool> {
    Seq::new(CAPACITY as nat, |i: int| a[i] || b[i])
}

/// How many entries of a membership sequence are true.
pub open spec fn count_trues(s: Seq<bool>) -> nat
    decreases s.len(),
{
    if s.len() == 0 {
        0
    } else {
        count_trues(s.drop_last()) + if s.last() { 1nat } else { 0nat }
    }
}

/// A membership sequence counts zero exactly when no entry is true.
pub proof fn lemma_count_trues_zero(s: Seq<bool>)
    ensures
        (count_trues(s) == 0) <==> (forall|i: int| 0 <= i < s.len() ==> !s[i]),
    decreases s.len(),
{
    if s.len() > 0 {
        lemma_count_trues_zero(s.drop_last());
        assert(forall|i: int| 0 <= i < s.len() - 1 ==> s.drop_last()[i] == s[i]);
        if count_trues(s) == 0 {
            assert forall|i: int| 0 <= i < s.len() implies !s[i] by {
                if i < s.len() - 1 {
                    assert(!s.drop_last()[i]);
                }
            }
        }
    }
}

/// A membership sequence never counts more than its length.
pub proof fn lemma_count_trues_le_len(s: Seq<bool>)
    ensures
        count_trues(s) <= s.len(),
    decreases s.len(),
{
    if s.len() > 0 {
        lemma_count_trues_le_len(s.drop_last());
    }
}

/// A pointwise-larger membership sequence counts at least as much, and
/// strictly more when it holds a member the smaller one lacks.
pub proof fn lemma_count_trues_pointwise(a: Seq<bool>, b: Seq<bool>)
    requires
        a.len() == b.len(),
        forall|i: int| 0 <= i < a.len() && #[trigger] a[i] ==> b[i],
    ensures
        count_trues(a) <= count_trues(b),
        (exists|i: int| 0 <= i < a.len() && !a[i] && #[trigger] b[i])
            ==> count_trues(a) < count_trues(b),
    decreases a.len(),
{
    if a.len() > 0 {
        let da = a.drop_last();
        let db = b.drop_last();
        assert(forall|i: int| 0 <= i < a.len() - 1 ==> da[i] == a[i] && db[i] == b[i]);
        lemma_count_trues_pointwise(da, db);
        if exists|i: int| 0 <= i < a.len() && !a[i] && #[trigger] b[i] {
            let i = choose|i: int| 0 <= i < a.len() && !a[i] && #[trigger] b[i];
            if i == a.len() - 1 {
                assert(count_trues(a) == count_trues(da));
                assert(count_trues(b) == count_trues(db) + 1);
            } else {
                assert(!da[i] && db[i]);
                assert(count_trues(da) < count_trues(db));
            }
        }
    }
}

/// With all members below `n`, the count is at most `n`.
pub proof fn lemma_count_trues_support(s: Seq<bool>, n: int)
    requires
        0 <= n <= s.len(),
        forall|i: int| 0 <= i < s.len() && #[trigger] s[i] ==> i < n,
    ensures
        count_trues(s) <= n,
    decreases s.len(),
{
    if s.len() > 0 {
        let d = s.drop_last();
        assert(forall|i: int| 0 <= i < s.len() - 1 ==> d[i] == s[i]);
        if n == s.len() {
            lemma_count_trues_le_len(d);
        } else {
            lemma_count_trues_support(d, n);
            assert(!s[s.len() - 1]);
        }
    }
}

/// When every member of a sequence lies below `n`, the count reaches `n`
/// exactly when every entry below `n` is true.
pub proof fn lemma_count_trues_full(s: Seq<bool>, n: int)
    requires
        0 <= n <= s.len(),
        forall|i: int| 0 <= i < s.len() && s[i] ==> i < n,
    ensures
        (count_trues(s) == n) <==> (forall|i: int| 0 <= i < n ==> s[i]),
    decreases s.len(),
{
    if s.len() == 0 {
    } else {
        let d = s.drop_last();
        assert(forall|i: int| 0 <= i < s.len() - 1 ==> d[i] == s[i]);
        if s.last() {
            assert(s[s.len() - 1]);
            assert(n == s.len());
            lemma_count_trues_full(d, n - 1);
            assert((count_trues(s) == n) <==> (forall|i: int| 0 <= i < n - 1 ==> d[i]));
            if forall|i: int| 0 <= i < n - 1 ==> d[i] {
                assert forall|i: int| 0 <= i < n implies s[i] by {
                    if i < n - 1 {
                        assert(d[i]);
                    }
                }
            }
        } else {
            if n == s.len() {
                lemma_count_trues_le_len(d);
                assert(count_trues(s) == count_trues(d));
                assert(count_trues(s) < n);
                assert(!s[n - 1]);
            } else {
                lemma_count_trues_full(d, n);
                if forall|i: int| 0 <= i < n ==> d[i] {
                    assert forall|i: int| 0 <= i < n implies s[i] by {
                        assert(d[i]);
                    }
                }
            }
        }
    }
}

} // verus!
