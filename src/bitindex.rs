use vstd::prelude::*;

use crate::error::VMError;

verus! {

/// Bit `b` of word `w`.
pub open spec fn bit(w: u64, b: u64) -> bool {
    (w >> b) & 1u64 == 1u64
}

/// Number of words that cover `len` positions.
pub open spec fn words_for(len: nat) -> nat {
    (len + 63) / 64
}

/// The positions `i < n` that are set in `v`, ascending.
pub open spec fn members_upto(v: Seq<bool>, n: int) -> Seq<int>
    decreases n,
{
    if n <= 0 {
        Seq::empty()
    } else if n - 1 < v.len() && v[n - 1] {
        members_upto(v, n - 1).push(n - 1)
    } else {
        members_upto(v, n - 1)
    }
}

/// The set positions of `v`, ascending.
pub open spec fn members(v: Seq<bool>) -> Seq<int> {
    members_upto(v, v.len() as int)
}

/// The elements of `s` at positions `m`, in the order of `m`.
pub open spec fn gather<T>(s: Seq<T>, m: Seq<int>) -> Seq<T> {
    m.map_values(|i: int| s[i])
}

proof fn lemma_zero_word(b: u64)
    by (bit_vector)
    ensures
        (0u64 >> b) & 1u64 == 0u64,
        0u64 >> b == 0u64,
{
}

proof fn lemma_set_word(w: u64, b: u64, c: u64)
    by (bit_vector)
    requires
        b < 64,
        c < 64,
    ensures
        c == b ==> ((w | (1u64 << b)) >> c) & 1u64 == 1u64,
        c != b ==> ((w | (1u64 << b)) >> c) & 1u64 == (w >> c) & 1u64,
{
}

proof fn lemma_set_padding(w: u64, b: u64, r: u64)
    by (bit_vector)
    requires
        b < r,
        r < 64,
        w >> r == 0u64,
    ensures
        (w | (1u64 << b)) >> r == 0u64,
{
}

proof fn lemma_padding_bit(w: u64, r: u64, c: u64)
    by (bit_vector)
    requires
        r <= c,
        c < 64,
        w >> r == 0u64,
    ensures
        (w >> c) & 1u64 == 0u64,
{
}

proof fn lemma_not_word(w: u64, c: u64)
    by (bit_vector)
    requires
        c < 64,
    ensures
        (((!w) >> c) & 1u64 == 1u64) == !((w >> c) & 1u64 == 1u64),
        !(!w) == w,
{
}

proof fn lemma_not_masked(w: u64, r: u64, m: u64, c: u64)
    by (bit_vector)
    requires
        0 < r < 64,
        c < 64,
        m == ((1u64 << r) - 1u64) as u64,
    ensures
        ((((!w) & m) >> c) & 1u64 == 1u64) == (c < r && !((w >> c) & 1u64 == 1u64)),
        ((!w) & m) >> r == 0u64,
        w >> r == 0u64 ==> (!((!w) & m)) & m == w,
{
}

proof fn lemma_shift_positive(r: u64)
    by (bit_vector)
    requires
        r < 64,
    ensures
        1u64 << r >= 1u64,
{
}

proof fn lemma_clear_word(w: u64, b: u64, c: u64)
    by (bit_vector)
    requires
        b < 64,
        c < 64,
        (w >> b) & 1u64 == 1u64,
    ensures
        c == b ==> ((w ^ (1u64 << b)) >> c) & 1u64 == 0u64,
        c != b ==> ((w ^ (1u64 << b)) >> c) & 1u64 == (w >> c) & 1u64,
        (w ^ (1u64 << b)) < w,
{
}

proof fn lemma_members_past(v: Seq<bool>, n: int)
    requires
        n >= v.len(),
    ensures
        members_upto(v, n) == members(v),
    decreases n,
{
    if n > v.len() {
        lemma_members_past(v, n - 1);
    }
}

proof fn lemma_members_gap(v: Seq<bool>, a: int, b: int)
    requires
        0 <= a <= b,
        forall|i: int| a <= i < b ==> !(i < v.len() && v[i]),
    ensures
        members_upto(v, b) == members_upto(v, a),
    decreases b,
{
    if b > a {
        lemma_members_gap(v, a, b - 1);
    }
}

/// Each member below `n` is below `n` and is set.
proof fn lemma_members_bounds(v: Seq<bool>, n: int)
    ensures
        forall|k: int|
            0 <= k < members_upto(v, n).len() ==> 0 <= #[trigger] members_upto(v, n)[k] < n
                && members_upto(v, n)[k] < v.len() && v[members_upto(v, n)[k]],
        forall|j: int, k: int|
            0 <= j < k < members_upto(v, n).len() ==> members_upto(v, n)[j] < members_upto(
                v,
                n,
            )[k],
    decreases n,
{
    if n > 0 {
        lemma_members_bounds(v, n - 1);
        let p = members_upto(v, n - 1);
        let q = members_upto(v, n);
        if n - 1 < v.len() && v[n - 1] {
            assert(q == p.push(n - 1));
            assert forall|k: int| 0 <= k < q.len() implies 0 <= #[trigger] q[k] < n && q[k]
                < v.len() && v[q[k]] by {
                if k < p.len() {
                    assert(q[k] == p[k]);
                }
            }
            assert forall|j: int, k: int| 0 <= j < k < q.len() implies q[j] < q[k] by {
                assert(q[j] == p[j]);
                if k < p.len() {
                    assert(q[k] == p[k]);
                }
            }
        }
    }
}

/// Every set position below `n` is a member below `n`.
proof fn lemma_members_complete(v: Seq<bool>, n: int, i: int)
    requires
        0 <= i < n,
        i < v.len(),
        v[i],
    ensures
        members_upto(v, n).contains(i),
    decreases n,
{
    if i < n - 1 {
        lemma_members_complete(v, n - 1, i);
        let m = members_upto(v, n - 1);
        let k = choose|k: int| 0 <= k < m.len() && m[k] == i;
        if n - 1 < v.len() && v[n - 1] {
            assert(members_upto(v, n)[k] == i);
        }
    } else {
        assert(members_upto(v, n).last() == i);
    }
}

/// The positions in `out`, as integers.
pub open spec fn positions(out: Seq<usize>) -> Seq<int> {
    out.map_values(|x: usize| x as int)
}

/// Every position in `m` is below `n`.
pub open spec fn all_below(m: Seq<int>, n: int) -> bool {
    forall|k: int| 0 <= k < m.len() ==> 0 <= #[trigger] m[k] < n
}

/// No bit of `d` at a position at or past `len` is set: the last word holds nothing
/// above bit `len % 64`.
pub open spec fn padding_clear(d: Seq<u64>, len: nat) -> bool {
    len % 64 != 0 ==> d[d.len() - 1] >> ((len % 64) as u64) == 0
}

/// A fixed-capacity set of row positions packed into 64-bit words.
#[derive(Debug)]
pub struct BitIndex {
    data: Vec<u64>,
    len: usize,
}

impl BitIndex {
    /// Logical length: the number of positions the index covers.
    pub closed spec fn spec_len(&self) -> nat {
        self.len as nat
    }

    /// The packed words.
    pub closed spec fn words(&self) -> Seq<u64> {
        self.data@
    }

    /// Whether position `i` is a member: it is below the length and its bit is set.
    pub open spec fn has(&self, i: int) -> bool {
        0 <= i < self.spec_len() && bit(self.words()[i / 64], (i % 64) as u64)
    }

    /// The index as one flag per position.
    pub open spec fn view(&self) -> Seq<bool> {
        Seq::new(self.spec_len(), |i: int| self.has(i))
    }

    /// Words cover the length exactly, and the bits past the length are clear.
    pub open spec fn wf(&self) -> bool {
        &&& self.words().len() == words_for(self.spec_len())
        &&& padding_clear(self.words(), self.spec_len())
    }

    /// An empty index over `len` positions, in exactly as many words as cover them.
    pub fn for_col_len(len: usize) -> (r: BitIndex)
        ensures
            r.wf(),
            r.spec_len() == len,
            r.words() == Seq::new(words_for(len as nat), |j: int| 0u64),
            r@ == Seq::new(len as nat, |i: int| false),
    {
        let n: usize = len / 64 + if len % 64 == 0 { 0usize } else { 1usize };
        let mut data: Vec<u64> = Vec::new();
        let mut k: usize = 0;
        while k < n
            invariant
                k <= n,
                data@.len() == k,
                forall|j: int| 0 <= j < k ==> data@[j] == 0,
            decreases n - k,
        {
            data.push(0);
            k = k + 1;
        }
        let r = BitIndex { data, len };
        assert forall|i: int| 0 <= i < len implies !r.has(i) by {
            lemma_zero_word((i % 64) as u64);
        }
        assert(r@ =~= Seq::new(len as nat, |i: int| false));
        proof {
            lemma_zero_word((len % 64) as u64);
        }
        r
    }

    /// Bit `c` of word `k` is exactly membership of position `64 * k + c`.
    proof fn lemma_word_bits(&self, k: int)
        requires
            self.wf(),
            0 <= k < self.data@.len(),
        ensures
            forall|c: u64| c < 64 ==> #[trigger] bit(self.data@[k], c) == self.has(64 * k + c),
    {
        assert forall|c: u64| c < 64 implies #[trigger] bit(self.data@[k], c) == self.has(
            64 * k + c,
        ) by {
            let i = 64 * k + c;
            assert(i / 64 == k && i % 64 == c);
            if i >= self.len {
                let r = (self.len % 64) as u64;
                assert(k == self.data@.len() - 1 && r != 0 && c >= r);
                lemma_padding_bit(self.data@[k], r, c);
            }
        }
    }

    /// The packed words, lowest positions first.
    pub fn as_words(&self) -> (r: &Vec<u64>)
        ensures
            r@ == self.words(),
    {
        &self.data
    }

    /// The number of positions the index covers.
    pub fn len(&self) -> (r: usize)
        ensures
            r == self.spec_len(),
    {
        self.len
    }

    /// Marks position `idx` as a member.
    pub fn set(&mut self, idx: usize) -> (r: Result<(), VMError>)
        requires
            old(self).wf(),
        ensures
            final(self).wf(),
            final(self).spec_len() == old(self).spec_len(),
            final(self).words().len() == old(self).words().len(),
            idx < old(self)@.len() ==> r is Ok && final(self)@ == old(self)@.update(idx as int, true),
            idx >= old(self)@.len() ==> r == Err::<(), VMError>(VMError::IndexError) && *final(self)
                == *old(self),
    {
        if idx >= self.len {
            return Err(VMError::IndexError);
        }
        let block: usize = idx / 64;
        let b: u64 = (idx % 64) as u64;
        let ghost before = *self;
        let w = self.data[block];
        let nw = w | (1u64 << b);
        self.data.set(block, nw);
        proof {
            assert forall|i: int| 0 <= i < self.len implies self.has(i) == (if i == idx {
                true
            } else {
                before.has(i)
            }) by {
                if i / 64 == block {
                    lemma_set_word(w, b, (i % 64) as u64);
                }
            }
            assert(self@ =~= before@.update(idx as int, true));
            if self.len % 64 != 0 && block == self.data@.len() - 1 {
                lemma_set_padding(w, b, (self.len % 64) as u64);
            }
        }
        Ok(())
    }

    /// Whether position `i` is a member.
    pub fn get(&self, i: usize) -> (r: bool)
        requires
            self.wf(),
            i < self@.len(),
        ensures
            r == self@[i as int],
    {
        let w = self.data[i / 64];
        (w >> ((i % 64) as u64)) & 1u64 == 1u64
    }

    /// A copy with the same words and length.
    pub fn clone_index(&self) -> (r: BitIndex)
        ensures
            r.words() == self.words(),
            r.spec_len() == self.spec_len(),
            r.wf() == self.wf(),
            r@ == self@,
    {
        let r = BitIndex { data: self.data.clone(), len: self.len };
        assert(r.data@ =~= self.data@);
        assert(r@ =~= self@);
        r
    }

    /// Flips every position below the length; padding bits stay clear.
    pub fn inverted(&self) -> (r: BitIndex)
        requires
            self.wf(),
        ensures
            r.wf(),
            r.spec_len() == self.spec_len(),
            r@ == self@.map_values(|x: bool| !x),
            r.words() == complement_words(self.words(), self.spec_len()),
    {
        let n = self.data.len();
        let rem: u64 = (self.len % 64) as u64;
        let mut data: Vec<u64> = Vec::new();
        let mut k: usize = 0;
        while k < n
            invariant
                k <= n,
                n == self.data@.len(),
                rem == self.len % 64,
                data@.len() == k,
                forall|j: int|
                    0 <= j < k ==> data@[j] == complement_words(self.data@, self.len as nat)[j],
            decreases n - k,
        {
            let w = self.data[k];
            if k + 1 == n && rem != 0 {
                proof {
                    lemma_shift_positive(rem);
                }
                data.push(!w & ((1u64 << rem) - 1));
            } else {
                data.push(!w);
            }
            k = k + 1;
        }
        let r = BitIndex { data, len: self.len };
        proof {
            assert(r.data@ =~= complement_words(self.data@, self.len as nat));
            assert forall|i: int| 0 <= i < self.len implies r.has(i) == !self.has(i) by {
                let k = i / 64;
                let c = (i % 64) as u64;
                if k == n - 1 && rem != 0 {
                    lemma_not_masked(self.data@[k], rem, ((1u64 << rem) - 1u64) as u64, c);
                    assert(c < rem);
                } else {
                    lemma_not_word(self.data@[k], c);
                }
            }
            assert(r@ =~= self@.map_values(|x: bool| !x));
            if rem != 0 {
                lemma_not_masked(self.data@[n - 1], rem, ((1u64 << rem) - 1u64) as u64, 0);
            }
        }
        r
    }

    /// The elements of `col` at the member positions, in ascending order of position.
    pub fn select<T: Clone>(&self, col: &Vec<T>) -> (r: Result<Vec<T>, VMError>)
        requires
            self.wf(),
        ensures
            r is Ok <==> all_below(members(self@), col@.len() as int),
            r is Err ==> r->Err_0 == VMError::IndexError,
            r is Ok ==> r->Ok_0@.len() == members(self@).len() && forall|k: int|
                0 <= k < r->Ok_0@.len() ==> cloned(col@[members(self@)[k]], #[trigger] r->Ok_0@[k]),
    {
        let mut idx: Vec<usize> = Vec::new();
        self.for_each(&mut idx);
        let ghost m = members(self@);
        assert(positions(idx@) =~= m);
        let mut res: Vec<T> = Vec::new();
        let mut k: usize = 0;
        while k < idx.len()
            invariant
                k <= idx@.len(),
                m == members(self@),
                positions(idx@) == m,
                res@.len() == k,
                forall|j: int| 0 <= j < k ==> idx@[j] < col@.len(),
                forall|j: int| 0 <= j < k ==> cloned(col@[m[j]], #[trigger] res@[j]),
            decreases idx@.len() - k,
        {
            let i = idx[k];
            assert(m[k as int] == i);
            if i >= col.len() {
                assert(!all_below(m, col@.len() as int));
                return Err(VMError::IndexError);
            }
            res.push(col[i].clone());
            k = k + 1;
        }
        Ok(res)
    }

    /// Appends the members to `out`, in ascending order.
    pub fn for_each(&self, out: &mut Vec<usize>)
        requires
            self.wf(),
        ensures
            positions(final(out)@) == positions(old(out)@) + members(self@),
    {
        let n = self.data.len();
        let ghost v = self@;
        let ghost start = positions(out@);
        let mut block_idx: usize = 0;
        while block_idx < n
            invariant
                self.wf(),
                v == self@,
                n == self.data@.len(),
                block_idx <= n,
                positions(out@) == start + members_upto(v, 64 * block_idx),
            decreases n - block_idx,
        {
            let word = self.data[block_idx];
            let mut block = word;
            let ghost base = 64 * block_idx;
            let ghost mut lo: int = 0;
            proof {
                self.lemma_word_bits(block_idx as int);
            }
            while block != 0
                invariant
                    self.wf(),
                    v == self@,
                    n == self.data@.len(),
                    block_idx < n,
                    word == self.data@[block_idx as int],
                    base == 64 * block_idx,
                    forall|c: u64| c < 64 ==> #[trigger] bit(word, c) == self.has(base + c),
                    0 <= lo <= 64,
                    forall|c: u64| c < 64 ==> #[trigger] bit(block, c) == (bit(word, c) && c >= lo),
                    positions(out@) == start + members_upto(v, base + lo),
                decreases block,
            {
                let tz = block.trailing_zeros();
                proof {
                    vstd::std_specs::bits::axiom_u64_trailing_zeros(block);
                    assert(bit(block, tz as u64));
                    assert forall|i: int| base + lo <= i < base + tz implies !(i < v.len()
                        && v[i]) by {
                        let c = (i - base) as u64;
                        assert(!bit(block, c));
                        assert(bit(word, c) == self.has(base + c));
                    }
                    lemma_members_gap(v, base + lo, base + tz);
                    assert(bit(word, tz as u64) == self.has(base + tz));
                }
                let idx: usize = block_idx * 64 + tz as usize;
                let ghost before = out@;
                out.push(idx);
                proof {
                    assert(positions(out@) =~= positions(before).push(idx as int));
                    let t = tz as u64;
                    let nb = block ^ (1u64 << t);
                    assert forall|c: u64| c < 64 implies #[trigger] bit(nb, c) == (bit(word, c) && c
                        >= tz + 1) by {
                        lemma_clear_word(block, t, c);
                        if c < t {
                            assert((block >> c) & 1u64 == 0u64);
                            assert(!bit(nb, c));
                            assert(!(bit(word, c) && c >= tz + 1));
                        } else if c == t {
                            assert(!bit(nb, c));
                            assert(!(bit(word, c) && c >= tz + 1));
                        } else {
                            assert(bit(nb, c) == bit(block, c));
                            assert(bit(block, c) == (bit(word, c) && c >= lo));
                            assert(bit(nb, c) == (bit(word, c) && c >= tz + 1));
                        }
                    }
                    lemma_clear_word(block, t, 0);
                    lo = tz + 1;
                }
                block = block ^ (1u64 << tz);
            }
            proof {
                assert forall|i: int| base + lo <= i < base + 64 implies !(i < v.len() && v[i]) by {
                    let c = (i - base) as u64;
                    lemma_zero_word(c);
                    assert(!bit(block, c));
                    assert(bit(word, c) == self.has(base + c));
                }
                lemma_members_gap(v, base + lo, base + 64);
            }
            block_idx = block_idx + 1;
        }
        proof {
            lemma_members_past(v, 64 * block_idx);
        }
    }
}

/// Every word inverted; the last one masked to the bits below `len`.
pub open spec fn complement_words(d: Seq<u64>, len: nat) -> Seq<u64> {
    Seq::new(
        d.len(),
        |j: int|
            if j == d.len() - 1 && len % 64 != 0 {
                !d[j] & ((1u64 << ((len % 64) as u64)) - 1u64) as u64
            } else {
                !d[j]
            },
    )
}

/// Setting exactly the positions of `s` in an index of length `n` and gathering a
/// sequence of length `n` yields the elements at the positions of `s`, in ascending
/// order of position: the members are exactly `s`, strictly ascending, and each
/// gathered element is the one at its member position.
pub proof fn lemma_set_then_gather<T>(n: nat, s: Set<int>, col: Seq<T>)
    requires
        forall|i: int| #[trigger] s.contains(i) ==> 0 <= i < n,
        col.len() == n,
    ensures
        ({
            let m = members(Seq::new(n, |i: int| s.contains(i)));
            &&& forall|i: int| s.contains(i) <==> m.contains(i)
            &&& forall|j: int, k: int| 0 <= j < k < m.len() ==> m[j] < m[k]
            &&& all_below(m, n as int)
            &&& gather(col, m).len() == m.len()
            &&& forall|k: int| 0 <= k < m.len() ==> #[trigger] gather(col, m)[k] == col[m[k]]
        }),
{
    let v = Seq::new(n, |i: int| s.contains(i));
    let m = members(v);
    lemma_members_bounds(v, n as int);
    assert forall|i: int| s.contains(i) <==> m.contains(i) by {
        if s.contains(i) {
            lemma_members_complete(v, n as int, i);
        }
        if m.contains(i) {
            let k = choose|k: int| 0 <= k < m.len() && m[k] == i;
            assert(v[m[k]]);
        }
    }
}

/// Complementing twice gives back the same words, for any well-formed index.
pub proof fn lemma_complement_twice(x: BitIndex)
    requires
        x.wf(),
    ensures
        complement_words(complement_words(x.words(), x.spec_len()), x.spec_len()) == x.words(),
{
    let d = x.words();
    let len = x.spec_len();
    let c = complement_words(d, len);
    let cc = complement_words(c, len);
    assert forall|j: int| 0 <= j < d.len() implies cc[j] == d[j] by {
        if j == d.len() - 1 && len % 64 != 0 {
            let r = (len % 64) as u64;
            lemma_not_masked(d[j], r, ((1u64 << r) - 1u64) as u64, 0);
        } else {
            lemma_not_word(d[j], 0);
        }
    }
    assert(cc =~= d);
}

/// The mask of length `n` whose members are `m1[j]` for each member `j` of `mask2`:
/// the positions of a second selection, taken back through the first.
pub open spec fn compose(m1: Seq<int>, mask2: Seq<bool>, n: nat) -> Seq<bool> {
    Seq::new(
        n,
        |p: int| exists|j: int| 0 <= j < mask2.len() && j < m1.len() && mask2[j] && m1[j] == p,
    )
}

/// The flags of a strictly ascending sequence of positions below `n`.
pub open spec fn flags_of(s: Seq<int>, n: nat) -> Seq<bool> {
    Seq::new(n, |p: int| s.contains(p))
}

proof fn lemma_sorted_members_upto(s: Seq<int>, n: nat, k: int) -> (j: int)
    requires
        all_below(s, n as int),
        forall|a: int, b: int| 0 <= a < b < s.len() ==> s[a] < s[b],
        0 <= k <= n,
    ensures
        0 <= j <= s.len(),
        members_upto(flags_of(s, n), k) == s.take(j),
        forall|i: int| 0 <= i < j ==> s[i] < k,
        forall|i: int| j <= i < s.len() ==> s[i] >= k,
    decreases k,
{
    let v = flags_of(s, n);
    if k == 0 {
        assert(s.take(0) =~= Seq::<int>::empty());
        assert forall|i: int| 0 <= i < s.len() implies s[i] >= 0 by {
            assert(0 <= s[i]);
        }
        0
    } else {
        let j0 = lemma_sorted_members_upto(s, n, k - 1);
        if j0 < s.len() && s[j0] == k - 1 {
            assert(v[k - 1]);
            assert(s.take(j0 + 1) =~= s.take(j0).push(k - 1));
            j0 + 1
        } else {
            assert(!v[k - 1]) by {
                if s.contains(k - 1) {
                    let i = choose|i: int| 0 <= i < s.len() && s[i] == k - 1;
                    if i > j0 {
                        assert(s[j0] < s[i]);
                    }
                }
            }
            assert forall|i: int| j0 <= i < s.len() implies s[i] >= k by {
                if i > j0 {
                    assert(s[j0] < s[i]);
                }
            }
            j0
        }
    }
}

/// A strictly ascending sequence of positions below `n` is the member sequence of
/// its own flags.
pub proof fn lemma_sorted_members(s: Seq<int>, n: nat)
    requires
        all_below(s, n as int),
        forall|a: int, b: int| 0 <= a < b < s.len() ==> s[a] < s[b],
    ensures
        members(flags_of(s, n)) == s,
{
    let j = lemma_sorted_members_upto(s, n, n as int);
    if j < s.len() {
        assert(s[j] < n);
    }
    assert(s.take(j) =~= s);
}

/// Gather composition: selecting by `mask2` from what `mask1` selected from `c`
/// equals selecting from `c` by the composed mask.
pub proof fn lemma_gather_compose<T>(c: Seq<T>, mask1: Seq<bool>, mask2: Seq<bool>)
    requires
        all_below(members(mask1), c.len() as int),
        all_below(members(mask2), members(mask1).len() as int),
    ensures
        gather(gather(c, members(mask1)), members(mask2)) == gather(
            c,
            members(compose(members(mask1), mask2, c.len())),
        ),
{
    let m1 = members(mask1);
    let m2 = members(mask2);
    let g = gather(m1, m2);
    let n = c.len();
    lemma_members_bounds(mask1, mask1.len() as int);
    lemma_members_bounds(mask2, mask2.len() as int);
    assert(all_below(g, n as int));
    assert forall|a: int, b: int| 0 <= a < b < g.len() implies g[a] < g[b] by {
        assert(m2[a] < m2[b]);
    }
    lemma_sorted_members(g, n);
    assert forall|p: int| 0 <= p < n implies compose(m1, mask2, n)[p] == flags_of(g, n)[p] by {
        if compose(m1, mask2, n)[p] {
            let j = choose|j: int|
                0 <= j < mask2.len() && j < m1.len() && mask2[j] && m1[j] == p;
            lemma_members_complete(mask2, mask2.len() as int, j);
            let k = choose|k: int| 0 <= k < m2.len() && m2[k] == j;
            assert(g[k] == p);
        }
        if flags_of(g, n)[p] {
            let k = choose|k: int| 0 <= k < g.len() && g[k] == p;
            assert(mask2[m2[k]]);
        }
    }
    assert(compose(m1, mask2, n) =~= flags_of(g, n));
    assert(gather(gather(c, m1), m2) =~= gather(c, g));
}

} // verus!
