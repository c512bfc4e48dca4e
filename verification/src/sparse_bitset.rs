//! A set of small indices stored as sorted, nonzero 64-bit words.

use vstd::prelude::*;

verus! {

/// Whether bit `b` of `bits` is set.
pub open spec fn bit_of(bits: u64, b: nat) -> bool {
    b < 64 && (bits >> (b as u64)) & 1u64 == 1u64
}

/// The indices that word `w` holding `bits` stands for: `64 * w + b` for each set bit `b`.
pub open spec fn word_set(w: nat, bits: u64) -> Set<nat> {
    Set::new(|i: nat| i / 64 == w && bit_of(bits, i % 64))
}

/// Whether some stored word covers index `i`.
pub open spec fn words_contain(words: Seq<(u32, u64)>, i: nat) -> bool {
    exists|j: int|
        #![trigger words[j]]
        0 <= j < words.len() && words[j].0 as nat == i / 64 && bit_of(words[j].1, i % 64)
}

/// The indices that a list of words stands for.
pub open spec fn words_view(words: Seq<(u32, u64)>) -> Set<nat> {
    Set::new(|i: nat| words_contain(words, i))
}

/// Word lists are strictly sorted by word index, hold no zero word, and only
/// name indices that fit in a `usize`.
pub open spec fn words_wf(words: Seq<(u32, u64)>) -> bool {
    &&& forall|a: int, b: int|
        #![trigger words[a], words[b]]
        0 <= a < b < words.len() ==> words[a].0 < words[b].0
    &&& forall|a: int| #![trigger words[a]] 0 <= a < words.len() ==> words[a].1 != 0
    &&& forall|a: int|
        #![trigger words[a]]
        0 <= a < words.len() ==> (words[a].0 as int) * 64 + 63 <= usize::MAX
}

proof fn lemma_single_bit(c: u64, d: u64)
    requires
        c < 64,
        d < 64,
    ensures
        ((1u64 << c) >> d) & 1u64 == 1u64 <==> c == d,
{
    assert(((1u64 << c) >> d) & 1u64 == 1u64 <==> c == d) by (bit_vector)
        requires
            c < 64,
            d < 64,
    ;
}

proof fn lemma_and_bit(a: u64, b: u64, d: u64)
    requires
        d < 64,
    ensures
        ((a & b) >> d) & 1u64 == 1u64 <==> ((a >> d) & 1u64 == 1u64 && (b >> d) & 1u64
            == 1u64),
        ((a >> d) & 1u64 == 1u64 && (b >> d) & 1u64 == 1u64) ==> a & b != 0,
{
    assert(((a & b) >> d) & 1u64 == 1u64 <==> ((a >> d) & 1u64 == 1u64 && (b >> d) & 1u64
        == 1u64)) by (bit_vector)
        requires
            d < 64,
    ;
    assert(((a >> d) & 1u64 == 1u64 && (b >> d) & 1u64 == 1u64) ==> a & b != 0) by (bit_vector)
        requires
            d < 64,
    ;
}

proof fn lemma_or_bit(a: u64, b: u64, d: u64)
    requires
        d < 64,
    ensures
        ((a | b) >> d) & 1u64 == 1u64 <==> ((a >> d) & 1u64 == 1u64 || (b >> d) & 1u64
            == 1u64),
        b != 0 ==> a | b != 0,
{
    assert(((a | b) >> d) & 1u64 == 1u64 <==> ((a >> d) & 1u64 == 1u64 || (b >> d) & 1u64
        == 1u64)) by (bit_vector)
        requires
            d < 64,
    ;
    assert(b != 0 ==> a | b != 0) by (bit_vector);
}

proof fn lemma_and_not_bit(a: u64, b: u64, d: u64)
    requires
        d < 64,
    ensures
        ((a & !b) >> d) & 1u64 == 1u64 <==> ((a >> d) & 1u64 == 1u64 && !((b >> d) & 1u64
            == 1u64)),
{
    assert(((a & !b) >> d) & 1u64 == 1u64 <==> ((a >> d) & 1u64 == 1u64 && !((b >> d) & 1u64
        == 1u64))) by (bit_vector)
        requires
            d < 64,
    ;
}

proof fn lemma_mask_test(a: u64, c: u64)
    requires
        c < 64,
    ensures
        (a & (1u64 << c)) != 0 <==> (a >> c) & 1u64 == 1u64,
{
    assert((a & (1u64 << c)) != 0 <==> (a >> c) & 1u64 == 1u64) by (bit_vector)
        requires
            c < 64,
    ;
}

/// A nonzero word has its lowest set bit at `trailing_zeros`; a zero word has no set bit.
proof fn lemma_lowest_bit(bits: u64)
    ensures
        bits != 0 ==> vstd::std_specs::bits::u64_trailing_zeros(bits) < 64 && bit_of(
            bits,
            vstd::std_specs::bits::u64_trailing_zeros(bits) as nat,
        ),
        bits == 0 ==> forall|c: nat| !bit_of(bits, c),
{
    vstd::std_specs::bits::axiom_u64_trailing_zeros(bits);
    if bits == 0 {
        assert forall|c: nat| !bit_of(bits, c) by {
            if c < 64 {
                let d = c as u64;
                assert((0u64 >> d) & 1u64 == 0u64) by (bit_vector);
            }
        }
    }
}

/// Index `64 * w + c` lies in word `w` at bit `c`.
proof fn lemma_index_split(w: nat, c: nat)
    requires
        c < 64,
    ensures
        (w * 64 + c) / 64 == w,
        (w * 64 + c) % 64 == c,
{
    assert((w * 64 + c) / 64 == w && (w * 64 + c) % 64 == c) by (nonlinear_arith)
        requires
            c < 64,
    ;
}

/// An index is determined by its word and its bit.
proof fn lemma_index_join(i: nat)
    ensures
        i == (i / 64) * 64 + i % 64,
        i % 64 < 64,
{
    assert(i == (i / 64) * 64 + i % 64 && i % 64 < 64) by (nonlinear_arith);
}

proof fn lemma_word_set_or(w: nat, a: u64, b: u64)
    ensures
        word_set(w, a | b) == word_set(w, a).union(word_set(w, b)),
{
    assert forall|i: nat| word_set(w, a | b).contains(i) == word_set(w, a).union(
        word_set(w, b),
    ).contains(i) by {
        lemma_index_join(i);
        lemma_or_bit(a, b, (i % 64) as u64);
    }
    assert(word_set(w, a | b) =~= word_set(w, a).union(word_set(w, b)));
}

proof fn lemma_word_set_nonempty(w: nat, bits: u64)
    ensures
        bits != 0 ==> word_set(w, bits).contains(
            w * 64 + vstd::std_specs::bits::u64_trailing_zeros(bits) as nat,
        ),
        bits == 0 ==> word_set(w, bits) == Set::<nat>::empty(),
{
    lemma_lowest_bit(bits);
    if bits != 0 {
        lemma_index_split(w, vstd::std_specs::bits::u64_trailing_zeros(bits) as nat);
    } else {
        assert(word_set(w, bits) =~= Set::<nat>::empty());
    }
}

/// Inserting a word at position `p` adds exactly its indices.
proof fn lemma_view_insert(s: Seq<(u32, u64)>, p: int, x: (u32, u64))
    requires
        0 <= p <= s.len(),
    ensures
        words_view(s.insert(p, x)) == words_view(s).union(word_set(x.0 as nat, x.1)),
{
    let t = s.insert(p, x);
    assert forall|i: nat| words_view(t).contains(i) implies words_view(s).union(
        word_set(x.0 as nat, x.1),
    ).contains(i) by {
        let j = choose|j: int|
            #![trigger t[j]]
            0 <= j < t.len() && t[j].0 as nat == i / 64 && bit_of(t[j].1, i % 64);
        if j < p {
            assert(s[j] == t[j]);
        } else if j > p {
            assert(s[j - 1] == t[j]);
        }
    }
    assert forall|i: nat| words_view(s).union(word_set(x.0 as nat, x.1)).contains(i) implies words_view(
        t,
    ).contains(i) by {
        if words_view(s).contains(i) {
            let j = choose|j: int|
                #![trigger s[j]]
                0 <= j < s.len() && s[j].0 as nat == i / 64 && bit_of(s[j].1, i % 64);
            if j < p {
                assert(t[j] == s[j]);
            } else {
                assert(t[j + 1] == s[j]);
            }
        } else {
            assert(t[p] == x);
        }
    }
    assert(words_view(t) =~= words_view(s).union(word_set(x.0 as nat, x.1)));
}

/// Appending a word adds exactly its indices.
proof fn lemma_view_push(s: Seq<(u32, u64)>, x: (u32, u64))
    ensures
        words_view(s.push(x)) == words_view(s).union(word_set(x.0 as nat, x.1)),
{
    assert(s.push(x) =~= s.insert(s.len() as int, x));
    lemma_view_insert(s, s.len() as int, x);
}

/// In a well-formed list, the word at position `p` alone decides the indices of its word.
proof fn lemma_view_at(s: Seq<(u32, u64)>, p: int, i: nat)
    requires
        words_wf(s),
        0 <= p < s.len(),
        i / 64 == s[p].0 as nat,
    ensures
        words_view(s).contains(i) <==> bit_of(s[p].1, i % 64),
{
    if words_view(s).contains(i) {
        let j = choose|j: int|
            #![trigger s[j]]
            0 <= j < s.len() && s[j].0 as nat == i / 64 && bit_of(s[j].1, i % 64);
        assert(j == p) by {
            if j < p {
                assert(s[j].0 < s[p].0);
            } else if j > p {
                assert(s[p].0 < s[j].0);
            }
        }
    }
    if bit_of(s[p].1, i % 64) {
        assert(s[p] == s[p]);
    }
}

/// Replacing the word at `p` by a word with more bits adds exactly those bits.
proof fn lemma_view_merge(s: Seq<(u32, u64)>, p: int, bits: u64)
    requires
        words_wf(s),
        0 <= p < s.len(),
    ensures
        words_view(s.update(p, (s[p].0, s[p].1 | bits))) == words_view(s).union(
            word_set(s[p].0 as nat, bits),
        ),
{
    let t = s.update(p, (s[p].0, s[p].1 | bits));
    let w = s[p].0 as nat;
    assert forall|i: nat| words_view(t).contains(i) == words_view(s).union(
        word_set(w, bits),
    ).contains(i) by {
        lemma_index_join(i);
        lemma_or_bit(s[p].1, bits, (i % 64) as u64);
        if i / 64 == w {
            lemma_view_at(s, p, i);
            if bit_of(t[p].1, i % 64) {
                assert(t[p].0 as nat == i / 64);
            }
            if words_view(t).contains(i) {
                let j = choose|j: int|
                    #![trigger t[j]]
                    0 <= j < t.len() && t[j].0 as nat == i / 64 && bit_of(t[j].1, i % 64);
                if j != p {
                    assert(s[j] == t[j]);
                    if j < p {
                        assert(s[j].0 < s[p].0);
                    } else {
                        assert(s[p].0 < s[j].0);
                    }
                }
            }
        } else {
            if words_view(t).contains(i) {
                let j = choose|j: int|
                    #![trigger t[j]]
                    0 <= j < t.len() && t[j].0 as nat == i / 64 && bit_of(t[j].1, i % 64);
                assert(j != p);
                assert(s[j] == t[j]);
            }
            if words_view(s).contains(i) {
                let j = choose|j: int|
                    #![trigger s[j]]
                    0 <= j < s.len() && s[j].0 as nat == i / 64 && bit_of(s[j].1, i % 64);
                assert(j != p);
                assert(t[j] == s[j]);
            }
        }
    }
    assert(words_view(t) =~= words_view(s).union(word_set(w, bits)));
}

/// Clearing bit `t` of a word that has it set leaves a nonzero word unless `t` was its only bit.
proof fn lemma_clear_bit(bits: u64, t: u64)
    requires
        t < 64,
        (bits >> t) & 1u64 == 1u64,
    ensures
        bits != (1u64 << t) ==> bits & !(1u64 << t) != 0,
        ((bits & !(1u64 << t)) >> t) & 1u64 == 0u64,
{
    assert(bits != (1u64 << t) ==> bits & !(1u64 << t) != 0) by (bit_vector)
        requires
            t < 64,
            (bits >> t) & 1u64 == 1u64,
    ;
    assert(((bits & !(1u64 << t)) >> t) & 1u64 == 0u64) by (bit_vector)
        requires
            t < 64,
    ;
}

/// Every index of a list lies below the first word index that exceeds all of its words.
proof fn lemma_view_below(s: Seq<(u32, u64)>, m: nat, i: nat)
    requires
        forall|j: int| #![trigger s[j]] 0 <= j < s.len() ==> (s[j].0 as nat) < m,
        words_view(s).contains(i),
    ensures
        i < m * 64,
{
    let j = choose|j: int|
        #![trigger s[j]]
        0 <= j < s.len() && s[j].0 as nat == i / 64 && bit_of(s[j].1, i % 64);
    lemma_index_join(i);
}

/// A prefix of a list grows by the indices of its next word.
proof fn lemma_view_take_step(s: Seq<(u32, u64)>, k: int)
    requires
        0 <= k < s.len(),
    ensures
        words_view(s.take(k + 1)) == words_view(s.take(k)).union(word_set(s[k].0 as nat, s[k].1)),
{
    assert(s.take(k + 1) =~= s.take(k).push(s[k]));
    lemma_view_push(s.take(k), s[k]);
}

/// In a well-formed list, the indices of the words before position `k` never fall in word `s[k]`.
proof fn lemma_take_disjoint(s: Seq<(u32, u64)>, k: int)
    requires
        words_wf(s),
        0 <= k < s.len(),
    ensures
        word_set(s[k].0 as nat, s[k].1).disjoint(words_view(s.take(k))),
{
    let t = s.take(k);
    assert forall|i: nat| word_set(s[k].0 as nat, s[k].1).contains(i) implies !words_view(t).contains(i) by {
        if words_view(t).contains(i) {
            let j = choose|j: int|
                #![trigger t[j]]
                0 <= j < t.len() && t[j].0 as nat == i / 64 && bit_of(t[j].1, i % 64);
            assert(t[j] == s[j]);
            assert(s[j].0 < s[k].0);
        }
    }
}

/// A set of indices stored as nonzero 64-bit words, sorted by word index.
///
/// Only words that hold at least one index are stored, so a large index does
/// not allocate the zero words below it.
#[derive(Debug, PartialEq, Eq)]
pub struct SparseBitSet {
    words: Vec<(u32, u64)>,
}

impl View for SparseBitSet {
    type V = Set<nat>;

    closed spec fn view(&self) -> Set<nat> {
        words_view(self.words@)
    }
}

impl Clone for SparseBitSet {
    fn clone(&self) -> (copy: Self)
        ensures
            copy@ == self@,
    {
        proof {
            use_type_invariant(self);
        }
        let mut words: Vec<(u32, u64)> = Vec::new();
        let mut k: usize = 0;
        while k < self.words.len()
            invariant
                k <= self.words@.len(),
                words@ == self.words@.take(k as int),
            decreases self.words@.len() - k,
        {
            words.push(self.words[k]);
            k = k + 1;
            assert(words@ =~= self.words@.take(k as int));
        }
        assert(words@ =~= self.words@);
        SparseBitSet { words }
    }
}

impl SparseBitSet {
    #[verifier::type_invariant]
    spec fn well_formed(self) -> bool {
        words_wf(self.words@)
    }

    /// The number of distinct words among the stored indices.
    pub closed spec fn spec_word_count(&self) -> nat {
        self.words@.len()
    }

    /// An empty set.
    pub fn new() -> (set: Self)
        ensures
            set@ == Set::<nat>::empty(),
    {
        let set = SparseBitSet { words: Vec::new() };
        assert(set@ =~= Set::<nat>::empty());
        set
    }

    /// Position of the first stored word whose index is at least `w`.
    fn lower_bound(&self, w: u32) -> (p: usize)
        ensures
            p <= self.words@.len(),
            forall|a: int| #![trigger self.words@[a]] 0 <= a < p ==> self.words@[a].0 < w,
            forall|a: int|
                #![trigger self.words@[a]]
                p <= a < self.words@.len() ==> self.words@[a].0 >= w,
    {
        proof {
            use_type_invariant(self);
        }
        let mut lo: usize = 0;
        let mut hi: usize = self.words.len();
        while lo < hi
            invariant
                words_wf(self.words@),
                lo <= hi <= self.words@.len(),
                forall|a: int| #![trigger self.words@[a]] 0 <= a < lo ==> self.words@[a].0 < w,
                forall|a: int|
                    #![trigger self.words@[a]]
                    hi <= a < self.words@.len() ==> self.words@[a].0 >= w,
            decreases hi - lo,
        {
            let mid = lo + (hi - lo) / 2;
            if self.words[mid].0 < w {
                proof {
                    assert forall|a: int| #![trigger self.words@[a]] 0 <= a <= mid implies self.words@[a].0 < w by {
                        if a < mid {
                            assert(self.words@[a].0 < self.words@[mid as int].0);
                        }
                    }
                }
                lo = mid + 1;
            } else {
                proof {
                    assert forall|a: int|
                        #![trigger self.words@[a]]
                        mid <= a < self.words@.len() implies self.words@[a].0 >= w by {
                        if a > mid {
                            assert(self.words@[mid as int].0 < self.words@[a].0);
                        }
                    }
                }
                hi = mid;
            }
        }
        lo
    }

    /// Whether `index` is in the set.
    pub fn contains(&self, index: usize) -> (r: bool)
        ensures
            r == self@.contains(index as nat),
    {
        proof {
            use_type_invariant(self);
        }
        let ghost i = index as nat;
        let wi = index / 64;
        if wi > 0xffff_ffffusize {
            proof {
                if self@.contains(i) {
                    let j = choose|j: int|
                        #![trigger self.words@[j]]
                        0 <= j < self.words@.len() && self.words@[j].0 as nat == i / 64
                            && bit_of(self.words@[j].1, i % 64);
                }
            }
            return false;
        }
        let w = wi as u32;
        let p = self.lower_bound(w);
        if p < self.words.len() && self.words[p].0 == w {
            let bits = self.words[p].1;
            let c = (index % 64) as u64;
            proof {
                lemma_mask_test(bits, c);
                lemma_view_at(self.words@, p as int, i);
            }
            (bits & (1u64 << c)) != 0
        } else {
            proof {
                if self@.contains(i) {
                    let j = choose|j: int|
                        #![trigger self.words@[j]]
                        0 <= j < self.words@.len() && self.words@[j].0 as nat == i / 64
                            && bit_of(self.words@[j].1, i % 64);
                    if j > p {
                        assert(self.words@[p as int].0 < self.words@[j].0);
                    }
                }
            }
            false
        }
    }

    /// Adds the indices of word `w` given by `bits`, and returns the bits that were new.
    fn insert_word(&mut self, w: u32, bits: u64) -> (new_bits: u64)
        requires
            bits != 0,
            (w as int) * 64 + 63 <= usize::MAX,
        ensures
            final(self)@ == old(self)@.union(word_set(w as nat, bits)),
            word_set(w as nat, new_bits) == word_set(w as nat, bits).difference(old(self)@),
    {
        proof {
            use_type_invariant(&*self);
        }
        let ghost s = self.words@;
        let p = self.lower_bound(w);
        if p < self.words.len() && self.words[p].0 == w {
            let current = self.words[p].1;
            let new_bits = bits & !current;
            let merged = current | bits;
            proof {
                lemma_or_bit(current, bits, 0);
                lemma_view_merge(s, p as int, bits);
                assert forall|i: nat| word_set(w as nat, new_bits).contains(i) == word_set(
                    w as nat,
                    bits,
                ).difference(words_view(s)).contains(i) by {
                    lemma_index_join(i);
                    lemma_and_not_bit(bits, current, (i % 64) as u64);
                    if i / 64 == w as nat {
                        lemma_view_at(s, p as int, i);
                    }
                }
                assert(word_set(w as nat, new_bits) =~= word_set(w as nat, bits).difference(
                    words_view(s),
                ));
                assert(s.update(p as int, (w, merged)) == s.update(p as int, (s[p as int].0, s[p as int].1 | bits)));
            }
            let mut words: Vec<(u32, u64)> = Vec::new();
            std::mem::swap(&mut words, &mut self.words);
            words.set(p, (w, merged));
            self.words = words;
            new_bits
        } else {
            proof {
                lemma_view_insert(s, p as int, (w, bits));
                assert forall|i: nat| word_set(w as nat, bits).contains(i) implies !words_view(s).contains(i) by {
                    if words_view(s).contains(i) {
                        let j = choose|j: int|
                            #![trigger s[j]]
                            0 <= j < s.len() && s[j].0 as nat == i / 64 && bit_of(s[j].1, i % 64);
                        if j > p {
                            assert(s[p as int].0 < s[j].0);
                        }
                    }
                }
                assert(word_set(w as nat, bits) =~= word_set(w as nat, bits).difference(
                    words_view(s),
                ));
                let t = s.insert(p as int, (w, bits));
                assert forall|a: int, b: int|
                    #![trigger t[a], t[b]]
                    0 <= a < b < t.len() implies t[a].0 < t[b].0 by {
                    if b < p {
                        assert(t[a] == s[a] && t[b] == s[b]);
                    } else if b == p {
                        assert(t[a] == s[a]);
                    } else if a < p {
                        assert(t[a] == s[a] && t[b] == s[b - 1]);
                    } else if a == p {
                        assert(t[b] == s[b - 1]);
                    } else {
                        assert(t[a] == s[a - 1] && t[b] == s[b - 1]);
                    }
                }
                assert forall|a: int| #![trigger t[a]] 0 <= a < t.len() implies t[a].1 != 0 && (t[a].0 as int) * 64 + 63 <= usize::MAX by {
                    if a < p {
                        assert(t[a] == s[a]);
                    } else if a > p {
                        assert(t[a] == s[a - 1]);
                    }
                }
            }
            let mut words: Vec<(u32, u64)> = Vec::new();
            std::mem::swap(&mut words, &mut self.words);
            words.insert(p, (w, bits));
            self.words = words;
            bits
        }
    }

    /// Adds `index`, and returns whether it was new.
    pub fn insert(&mut self, index: usize) -> (inserted: bool)
        requires
            index / 64 <= u32::MAX,
        ensures
            final(self)@ == old(self)@.insert(index as nat),
            inserted == !old(self)@.contains(index as nat),
    {
        let ghost i = index as nat;
        let w = (index / 64) as u32;
        let c = (index % 64) as u64;
        let bit = 1u64 << c;
        proof {
            lemma_index_join(i);
            assert(bit != 0) by (bit_vector)
                requires
                    bit == 1u64 << c,
                    c < 64,
            ;
            assert forall|j: nat| word_set(w as nat, bit).contains(j) == (j == i) by {
                lemma_index_join(j);
                if j % 64 < 64 {
                    lemma_single_bit(c, (j % 64) as u64);
                }
            }
            assert(word_set(w as nat, bit) =~= set![i]);
            assert((w as int) * 64 + 63 <= usize::MAX);
        }
        let new_bits = self.insert_word(w, bit);
        proof {
            assert(old(self)@.union(set![i]) =~= old(self)@.insert(i));
            lemma_word_set_nonempty(w as nat, new_bits);
            if new_bits != 0 {
                let t = vstd::std_specs::bits::u64_trailing_zeros(new_bits) as nat;
                lemma_index_split(w as nat, t);
            } else {
                assert(!word_set(w as nat, new_bits).contains(i));
            }
        }
        new_bits != 0
    }
    /// Whether the set holds no index.
    pub fn is_empty(&self) -> (r: bool)
        ensures
            r == (self@ == Set::<nat>::empty()),
    {
        proof {
            use_type_invariant(self);
        }
        if self.words.len() == 0 {
            assert(self@ =~= Set::<nat>::empty());
            true
        } else {
            proof {
                let w = self.words@[0].0 as nat;
                let bits = self.words@[0].1;
                lemma_word_set_nonempty(w, bits);
                let t = vstd::std_specs::bits::u64_trailing_zeros(bits) as nat;
                lemma_index_split(w, t);
                assert(self@.contains(w * 64 + t));
            }
            false
        }
    }

    /// The only index of the set, if it holds exactly one.
    pub fn sole_index(&self) -> (r: Option<usize>)
        ensures
            match r {
                Some(i) => self@ == set![i as nat],
                None => forall|i: nat| self@ != set![i],
            },
    {
        proof {
            use_type_invariant(self);
        }
        if self.words.len() != 1 {
            proof {
                let s = self.words@;
                if s.len() == 0 {
                    assert(self@ =~= Set::<nat>::empty());
                    assert forall|i: nat| self@ != set![i] by {
                        assert(set![i].contains(i));
                    }
                } else {
                    let w0 = s[0].0 as nat;
                    let w1 = s[1].0 as nat;
                    lemma_word_set_nonempty(w0, s[0].1);
                    lemma_word_set_nonempty(w1, s[1].1);
                    let i0 = w0 * 64 + vstd::std_specs::bits::u64_trailing_zeros(s[0].1) as nat;
                    let i1 = w1 * 64 + vstd::std_specs::bits::u64_trailing_zeros(s[1].1) as nat;
                    lemma_index_split(w0, vstd::std_specs::bits::u64_trailing_zeros(s[0].1) as nat);
                    lemma_index_split(w1, vstd::std_specs::bits::u64_trailing_zeros(s[1].1) as nat);
                    assert(s[0].0 < s[1].0);
                    assert(self@.contains(i0));
                    assert(self@.contains(i1));
                    assert forall|i: nat| self@ != set![i] by {
                        if self@ == set![i] {
                            assert(set![i].contains(i0) && set![i].contains(i1));
                        }
                    }
                }
            }
            return None;
        }
        let w = self.words[0].0;
        let bits = self.words[0].1;
        let t = bits.trailing_zeros();
        proof {
            vstd::std_specs::bits::axiom_u64_trailing_zeros(bits);
            lemma_clear_bit(bits, t as u64);
            lemma_index_split(w as nat, t as nat);
        }
        if bits == (1u64 << (t as u64)) {
            let i = (w as usize) * 64 + (t as usize);
            proof {
                assert forall|j: nat| self@.contains(j) == (j == i as nat) by {
                    lemma_index_join(j);
                    lemma_single_bit(t as u64, (j % 64) as u64);
                    if self@.contains(j) {
                        let x = choose|x: int|
                            #![trigger self.words@[x]]
                            0 <= x < self.words@.len() && self.words@[x].0 as nat == j / 64
                                && bit_of(self.words@[x].1, j % 64);
                        assert(x == 0);
                    }
                    if j == i as nat {
                        assert(self.words@[0].0 as nat == j / 64);
                    }
                }
                assert(self@ =~= set![i as nat]);
            }
            Some(i)
        } else {
            proof {
                let rest = bits & !(1u64 << (t as u64));
                lemma_lowest_bit(rest);
                let t2 = vstd::std_specs::bits::u64_trailing_zeros(rest);
                lemma_and_bit(bits, !(1u64 << (t as u64)), t2 as u64);
                let i0 = (w as nat) * 64 + t as nat;
                let i1 = (w as nat) * 64 + t2 as nat;
                lemma_index_split(w as nat, t2 as nat);
                assert(self@.contains(i0)) by {
                    assert(self.words@[0].0 as nat == i0 / 64);
                }
                assert(self@.contains(i1)) by {
                    assert(self.words@[0].0 as nat == i1 / 64);
                }
                assert(t2 != t);
                assert forall|i: nat| self@ != set![i] by {
                    if self@ == set![i] {
                        assert(set![i].contains(i0) && set![i].contains(i1));
                    }
                }
            }
            None
        }
    }

    /// Whether the two sets share an index.
    pub fn intersects(&self, other: &Self) -> (r: bool)
        ensures
            r == exists|i: nat| self@.contains(i) && other@.contains(i),
    {
        proof {
            use_type_invariant(self);
            use_type_invariant(other);
        }
        let ghost s = self.words@;
        let ghost o = other.words@;
        let mut a: usize = 0;
        let mut b: usize = 0;
        while a < self.words.len() && b < other.words.len()
            invariant
                s == self.words@,
                o == other.words@,
                words_wf(s),
                words_wf(o),
                a <= s.len(),
                b <= o.len(),
                forall|x: int, y: int|
                    #![trigger s[x], o[y]]
                    0 <= x < a && 0 <= y < o.len() && s[x].0 == o[y].0 ==> s[x].1 & o[y].1 == 0,
                forall|x: int, y: int|
                    #![trigger s[x], o[y]]
                    0 <= x < s.len() && 0 <= y < b && s[x].0 == o[y].0 ==> s[x].1 & o[y].1 == 0,
            decreases s.len() - a + o.len() - b,
        {
            let wa = self.words[a].0;
            let ba = self.words[a].1;
            let wb = other.words[b].0;
            let bb = other.words[b].1;
            if wa < wb {
                proof {
                    assert forall|x: int, y: int|
                        #![trigger s[x], o[y]]
                        0 <= x < a + 1 && 0 <= y < o.len() && s[x].0 == o[y].0 implies s[x].1
                            & o[y].1 == 0 by {
                        if x == a && y > b {
                            assert(o[b as int].0 < o[y].0);
                        }
                    }
                }
                a = a + 1;
            } else if wb < wa {
                proof {
                    assert forall|x: int, y: int|
                        #![trigger s[x], o[y]]
                        0 <= x < s.len() && 0 <= y < b + 1 && s[x].0 == o[y].0 implies s[x].1
                            & o[y].1 == 0 by {
                        if y == b && x > a {
                            assert(s[a as int].0 < s[x].0);
                        }
                    }
                }
                b = b + 1;
            } else {
                if ba & bb != 0 {
                    proof {
                        let both = ba & bb;
                        lemma_lowest_bit(both);
                        let t = vstd::std_specs::bits::u64_trailing_zeros(both);
                        lemma_and_bit(ba, bb, t as u64);
                        let i = (wa as nat) * 64 + t as nat;
                        lemma_index_split(wa as nat, t as nat);
                        assert(s[a as int].0 as nat == i / 64);
                        assert(o[b as int].0 as nat == i / 64);
                        assert(self@.contains(i) && other@.contains(i));
                    }
                    return true;
                }
                proof {
                    assert forall|x: int, y: int|
                        #![trigger s[x], o[y]]
                        0 <= x < a + 1 && 0 <= y < o.len() && s[x].0 == o[y].0 implies s[x].1
                            & o[y].1 == 0 by {
                        if x == a && y > b {
                            assert(o[b as int].0 < o[y].0);
                        }
                    }
                    assert forall|x: int, y: int|
                        #![trigger s[x], o[y]]
                        0 <= x < s.len() && 0 <= y < b + 1 && s[x].0 == o[y].0 implies s[x].1
                            & o[y].1 == 0 by {
                        if y == b && x > a {
                            assert(s[a as int].0 < s[x].0);
                        }
                    }
                }
                a = a + 1;
                b = b + 1;
            }
        }
        proof {
            assert forall|i: nat| !(self@.contains(i) && other@.contains(i)) by {
                if self@.contains(i) && other@.contains(i) {
                    let x = choose|x: int|
                        #![trigger s[x]]
                        0 <= x < s.len() && s[x].0 as nat == i / 64 && bit_of(s[x].1, i % 64);
                    let y = choose|y: int|
                        #![trigger o[y]]
                        0 <= y < o.len() && o[y].0 as nat == i / 64 && bit_of(o[y].1, i % 64);
                    lemma_and_bit(s[x].1, o[y].1, (i % 64) as u64);
                    assert(s[x].1 & o[y].1 == 0);
                }
            }
        }
        false
    }

    /// Adds every index of `other`.
    pub fn union(&mut self, other: &Self)
        ensures
            final(self)@ == old(self)@.union(other@),
    {
        proof {
            use_type_invariant(other);
        }
        let ghost o = other.words@;
        let mut k: usize = 0;
        while k < other.words.len()
            invariant
                o == other.words@,
                words_wf(o),
                k <= o.len(),
                self@ == old(self)@.union(words_view(o.take(k as int))),
            decreases o.len() - k,
        {
            let w = other.words[k].0;
            let bits = other.words[k].1;
            self.insert_word(w, bits);
            proof {
                lemma_view_take_step(o, k as int);
                assert(self@ =~= old(self)@.union(words_view(o.take(k + 1))));
            }
            k = k + 1;
        }
        assert(o.take(o.len() as int) =~= o);
    }

    /// Adds every index of `other`, and gathers into `delta` the indices that were new.
    pub fn union_delta(&mut self, other: &Self, delta: &mut Self)
        requires
            old(delta)@ == Set::<nat>::empty(),
        ensures
            final(self)@ == old(self)@.union(other@),
            final(delta)@ == other@.difference(old(self)@),
    {
        proof {
            use_type_invariant(other);
        }
        let ghost o = other.words@;
        let mut k: usize = 0;
        proof {
            assert(delta@ =~= words_view(o.take(0)).difference(old(self)@));
        }
        while k < other.words.len()
            invariant
                o == other.words@,
                words_wf(o),
                k <= o.len(),
                self@ == old(self)@.union(words_view(o.take(k as int))),
                delta@ == words_view(o.take(k as int)).difference(old(self)@),
            decreases o.len() - k,
        {
            let w = other.words[k].0;
            let bits = other.words[k].1;
            let ghost before = self@;
            let new_bits = self.insert_word(w, bits);
            proof {
                lemma_view_take_step(o, k as int);
                lemma_take_disjoint(o, k as int);
                assert(word_set(w as nat, new_bits) =~= word_set(w as nat, bits).difference(
                    old(self)@,
                ));
                assert(self@ =~= old(self)@.union(words_view(o.take(k + 1))));
            }
            if new_bits != 0 {
                delta.insert_word(w, new_bits);
                proof {
                    assert(delta@ =~= words_view(o.take(k + 1)).difference(old(self)@));
                }
            } else {
                proof {
                    lemma_word_set_nonempty(w as nat, new_bits);
                    assert forall|i: nat| word_set(w as nat, bits).contains(i) implies old(self)@.contains(i) by {
                        assert(!word_set(w as nat, new_bits).contains(i));
                    }
                    assert(delta@ =~= words_view(o.take(k + 1)).difference(old(self)@));
                }
            }
            k = k + 1;
        }
        assert(o.take(o.len() as int) =~= o);
    }

    /// The indices of the set in increasing order.
    pub fn indices(&self) -> (r: Vec<usize>)
        ensures
            forall|a: int, b: int| #![trigger r@[a], r@[b]] 0 <= a < b < r.len() ==> r@[a] < r@[b],
            forall|x: int| #![trigger r@[x]] 0 <= x < r.len() ==> self@.contains(r@[x] as nat),
            forall|i: nat|
                #![trigger self@.contains(i)]
                self@.contains(i) ==> exists|x: int|
                    #![trigger r@[x]]
                    0 <= x < r.len() && r@[x] as nat == i,
    {
        proof {
            use_type_invariant(self);
        }
        let ghost s = self.words@;
        let mut out: Vec<usize> = Vec::new();
        let mut k: usize = 0;
        while k < self.words.len()
            invariant
                s == self.words@,
                words_wf(s),
                k <= s.len(),
                forall|a: int, b: int|
                    #![trigger out@[a], out@[b]]
                    0 <= a < b < out.len() ==> out@[a] < out@[b],
                forall|x: int|
                    #![trigger out@[x]]
                    0 <= x < out.len() ==> words_view(s.take(k as int)).contains(out@[x] as nat),
                forall|i: nat|
                    #![trigger words_view(s.take(k as int)).contains(i)]
                    words_view(s.take(k as int)).contains(i) ==> exists|x: int|
                        #![trigger out@[x]]
                        0 <= x < out.len() && out@[x] as nat == i,
                k < s.len() ==> forall|x: int|
                    #![trigger out@[x]]
                    0 <= x < out.len() ==> (out@[x] as nat) < (s[k as int].0 as nat) * 64,
            decreases s.len() - k,
        {
            let w = self.words[k].0;
            let bits = self.words[k].1;
            let base: usize = (w as usize) * 64;
            let ghost done = words_view(s.take(k as int));
            let ghost word = word_set(w as nat, bits);
            let mut c: u64 = 0;
            while c < 64
                invariant
                    s == self.words@,
                    words_wf(s),
                    k < s.len(),
                    w == s[k as int].0,
                    bits == s[k as int].1,
                    base as nat == (w as nat) * 64,
                    base as int + 63 <= usize::MAX,
                    done == words_view(s.take(k as int)),
                    word == word_set(w as nat, bits),
                    c <= 64,
                    forall|a: int, b: int|
                        #![trigger out@[a], out@[b]]
                        0 <= a < b < out.len() ==> out@[a] < out@[b],
                    forall|x: int|
                        #![trigger out@[x]]
                        0 <= x < out.len() ==> (out@[x] as nat) < base as nat + c as nat,
                    forall|x: int|
                        #![trigger out@[x]]
                        0 <= x < out.len() ==> done.contains(out@[x] as nat) || word.contains(
                            out@[x] as nat,
                        ),
                    forall|i: nat|
                        #![trigger done.contains(i)]
                        done.contains(i) ==> exists|x: int|
                            #![trigger out@[x]]
                            0 <= x < out.len() && out@[x] as nat == i,
                    forall|d: nat|
                        #![trigger bit_of(bits, d)]
                        d < c && bit_of(bits, d) ==> exists|x: int|
                            #![trigger out@[x]]
                            0 <= x < out.len() && out@[x] as nat == base as nat + d,
                decreases 64 - c,
            {
                if (bits >> c) & 1u64 == 1u64 {
                    let ghost before = out@;
                    out.push(base + (c as usize));
                    proof {
                        lemma_index_split(w as nat, c as nat);
                        assert(word.contains(base as nat + c as nat));
                        assert forall|i: nat| #![trigger done.contains(i)] done.contains(i) implies exists|x: int|
                            #![trigger out@[x]]
                            0 <= x < out.len() && out@[x] as nat == i by {
                            let x = choose|x: int|
                                #![trigger before[x]]
                                0 <= x < before.len() && before[x] as nat == i;
                            assert(out@[x] == before[x]);
                        }
                        assert forall|d: nat|
                            #![trigger bit_of(bits, d)]
                            d < c + 1 && bit_of(bits, d) implies exists|x: int|
                            #![trigger out@[x]]
                            0 <= x < out.len() && out@[x] as nat == base as nat + d by {
                            if d < c {
                                let x = choose|x: int|
                                    #![trigger before[x]]
                                    0 <= x < before.len() && before[x] as nat == base as nat + d;
                                assert(out@[x] == before[x]);
                            } else {
                                assert(out@[before.len() as int] as nat == base as nat + d);
                            }
                        }
                    }
                }
                c = c + 1;
            }
            proof {
                lemma_view_take_step(s, k as int);
                let next = words_view(s.take(k + 1));
                assert forall|i: nat| #![trigger next.contains(i)] next.contains(i) implies exists|x: int|
                    #![trigger out@[x]]
                    0 <= x < out.len() && out@[x] as nat == i by {
                    if !done.contains(i) {
                        assert(word.contains(i));
                        lemma_index_join(i);
                        assert(bit_of(bits, i % 64));
                    }
                }
                if k + 1 < s.len() {
                    assert(s[k as int].0 < s[k + 1].0);
                    assert forall|x: int| #![trigger out@[x]] 0 <= x < out.len() implies (out@[x] as nat) < (s[k + 1].0 as nat) * 64 by {}
                }
            }
            k = k + 1;
        }
        proof {
            assert(s.take(s.len() as int) =~= s);
        }
        out
    }

    /// The number of stored words: one for each group of 64 indices that holds a member.
    pub fn word_count(&self) -> (n: usize)
        ensures
            n == self@.map(|i: nat| i / 64).len(),
    {
        proof {
            use_type_invariant(self);
            let s = self.words@;
            let ws = Seq::new(s.len(), |j: int| s[j].0 as nat);
            assert(ws.no_duplicates()) by {
                assert forall|a: int, b: int| 0 <= a < ws.len() && 0 <= b < ws.len() && a != b implies ws[a] != ws[b] by {
                    if a < b {
                        assert(s[a].0 < s[b].0);
                    } else {
                        assert(s[b].0 < s[a].0);
                    }
                }
            }
            ws.unique_seq_to_set();
            let f = |i: nat| i / 64;
            assert forall|w: nat| #![trigger ws.to_set().contains(w)] ws.to_set().contains(w) == self@.map(f).contains(w) by {
                if ws.to_set().contains(w) {
                    let j = choose|j: int| 0 <= j < ws.len() && ws[j] == w;
                    lemma_word_set_nonempty(w, s[j].1);
                    let t = vstd::std_specs::bits::u64_trailing_zeros(s[j].1) as nat;
                    lemma_index_split(w, t);
                    assert(s[j].0 as nat == (w * 64 + t) / 64);
                    assert(self@.contains(w * 64 + t));
                }
                if self@.map(f).contains(w) {
                    let i = choose|i: nat| self@.contains(i) && w == f(i);
                    let j = choose|j: int|
                        #![trigger s[j]]
                        0 <= j < s.len() && s[j].0 as nat == i / 64 && bit_of(s[j].1, i % 64);
                    assert(ws[j] == w);
                }
            }
            assert(ws.to_set() =~= self@.map(f));
        }
        self.words.len()
    }
}

} // verus!
