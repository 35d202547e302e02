use vstd::prelude::*;

use crate::bitindex::{
    all_below, compose, gather, lemma_gather_compose, members, positions, BitIndex,
};
use crate::error::VMError;
use crate::number::{is_nan_bits, num_eq, Number};
use vstd::utf8::encode_utf8;

verus! {

/// A literal or filter value.
#[derive(Debug)]
pub enum Scalar {
    Bool(bool),
    Num(Number),
    Str(String),
    Entity(u64),
    Record(Vec<Scalar>),
}

/// Flags saying which elements of `s` satisfy `p`.
pub open spec fn eq_mask<T>(s: Seq<T>, p: spec_fn(T) -> bool) -> Seq<bool> {
    Seq::new(s.len(), |i: int| p(s[i]))
}

/// A column of flags, held as a bit index.
#[derive(Debug)]
pub struct BoolColumn {
    data: BitIndex,
}

impl BoolColumn {
    /// The bit index that holds the flags.
    pub closed spec fn bits(&self) -> BitIndex {
        self.data
    }

    /// The bit index is exactly sized, with its padding clear.
    pub open spec fn wf(&self) -> bool {
        self.bits().wf()
    }

    pub open spec fn view(&self) -> Seq<bool> {
        self.bits()@
    }

    /// A mask column over the positions of `data`.
    pub fn new(data: BitIndex) -> (r: BoolColumn)
        requires
            data.wf(),
        ensures
            r.bits() == data,
    {
        BoolColumn { data }
    }

    /// The underlying bit index.
    pub fn index(&self) -> (r: &BitIndex)
        ensures
            *r == self.bits(),
    {
        &self.data
    }

    /// Positions equal to `val`: the mask itself for `true`, its complement for `false`.
    pub fn filter(&self, val: Scalar) -> (r: Result<BoolColumn, VMError>)
        requires
            self.wf(),
        ensures
            match val {
                Scalar::Bool(b) => r is Ok && r->Ok_0.wf() && r->Ok_0@ == eq_mask(
                    self@,
                    |x: bool| x == b,
                ),
                _ => r == Err::<BoolColumn, VMError>(VMError::TypeError),
            },
    {
        match val {
            Scalar::Bool(x) => {
                if x {
                    let r = BoolColumn { data: self.data.clone_index() };
                    assert(r@ =~= eq_mask(self@, |y: bool| y == x));
                    Ok(r)
                } else {
                    let r = BoolColumn { data: self.data.inverted() };
                    assert(r@ =~= eq_mask(self@, |y: bool| y == x));
                    Ok(r)
                }
            },
            _ => Err(VMError::TypeError),
        }
    }

    /// The flags at the mask's member positions, in ascending order.
    pub fn select(&self, mask: &BoolColumn) -> (r: Result<BoolColumn, VMError>)
        requires
            self.wf(),
            mask.wf(),
        ensures
            r is Ok <==> all_below(members(mask@), self@.len() as int),
            r is Err ==> r->Err_0 == VMError::IndexError,
            r is Ok ==> r->Ok_0.wf() && r->Ok_0@ == gather(self@, members(mask@)),
    {
        let mut idx: Vec<usize> = Vec::new();
        mask.data.for_each(&mut idx);
        let ghost m = members(mask@);
        assert(positions(idx@) =~= m);
        let n = idx.len();
        let mut k: usize = 0;
        while k < n
            invariant
                k <= n,
                n == idx@.len(),
                m == members(mask@),
                positions(idx@) == m,
                forall|j: int| 0 <= j < k ==> idx@[j] < self@.len(),
            decreases n - k,
        {
            assert(m[k as int] == idx@[k as int]);
            if idx[k] >= self.data.len() {
                assert(!all_below(m, self@.len() as int));
                return Err(VMError::IndexError);
            }
            k = k + 1;
        }
        assert(all_below(m, self@.len() as int)) by {
            assert forall|j: int| 0 <= j < m.len() implies #[trigger] m[j] < self@.len() by {
                assert(m[j] == idx@[j]);
            }
        }
        let mut out = BitIndex::for_col_len(n);
        let mut k: usize = 0;
        while k < n
            invariant
                k <= n,
                n == idx@.len(),
                m == members(mask@),
                positions(idx@) == m,
                all_below(m, self@.len() as int),
                self.wf(),
                out.wf(),
                out@.len() == n,
                forall|j: int| 0 <= j < k ==> out@[j] == self@[m[j]],
                forall|j: int| k <= j < n ==> !out@[j],
            decreases n - k,
        {
            let i = idx[k];
            assert(m[k as int] == i);
            if self.data.get(i) {
                let _ = out.set(k);
            }
            k = k + 1;
        }
        let r = BoolColumn { data: out };
        assert(r@ =~= gather(self@, m));
        Ok(r)
    }
}

/// A column of double-precision numbers.
#[derive(Debug)]
pub struct NumColumn {
    data: Vec<Number>,
}

impl NumColumn {
    pub closed spec fn view(&self) -> Seq<u64> {
        self.data@.map_values(|n: Number| n.bits)
    }

    /// A column of the given numbers.
    pub fn new(data: Vec<Number>) -> (r: NumColumn)
        ensures
            r@ == data@.map_values(|n: Number| n.bits),
    {
        NumColumn { data }
    }

    /// The numbers, in row order.
    pub fn values(&self) -> (r: &Vec<Number>)
        ensures
            r@.map_values(|n: Number| n.bits) == self@,
    {
        &self.data
    }

    /// Positions whose number equals `val` under IEEE-754 equality.
    pub fn filter(&self, val: Scalar) -> (r: Result<BoolColumn, VMError>)
        ensures
            match val {
                Scalar::Num(x) => r is Ok && r->Ok_0.wf() && r->Ok_0@ == eq_mask(
                    self@,
                    |b: u64| num_eq(b, x.bits),
                ),
                _ => r == Err::<BoolColumn, VMError>(VMError::TypeError),
            },
    {
        match val {
            Scalar::Num(x) => {
                let n = self.data.len();
                let mut out = BitIndex::for_col_len(n);
                let mut i: usize = 0;
                while i < n
                    invariant
                        i <= n,
                        n == self@.len(),
                        out.wf(),
                        out@.len() == n,
                        forall|j: int| 0 <= j < i ==> out@[j] == num_eq(self@[j], x.bits),
                        forall|j: int| i <= j < n ==> !out@[j],
                    decreases n - i,
                {
                    if self.data[i].equals(&x) {
                        let _ = out.set(i);
                    }
                    i = i + 1;
                }
                let r = BoolColumn::new(out);
                assert(r@ =~= eq_mask(self@, |b: u64| num_eq(b, x.bits)));
                Ok(r)
            },
            _ => Err(VMError::TypeError),
        }
    }

    /// The numbers at the mask's member positions, in ascending order.
    pub fn select(&self, mask: &BoolColumn) -> (r: Result<NumColumn, VMError>)
        requires
            mask.wf(),
        ensures
            r is Ok <==> all_below(members(mask@), self@.len() as int),
            r is Err ==> r->Err_0 == VMError::IndexError,
            r is Ok ==> r->Ok_0@ == gather(self@, members(mask@)),
    {
        let res = mask.index().select(&self.data)?;
        let ghost m = members(mask@);
        assert forall|k: int| 0 <= k < res@.len() implies #[trigger] res@[k] == self.data@[m[k]] by {
            assert(m[k] < self.data@.len());
            let a = self.data@[m[k]];
            let b = res@[k];
            assert(call_ensures(Number::clone, (&a,), b) ==> b == a);
        }
        let r = NumColumn { data: res };
        assert forall|k: int| 0 <= k < m.len() implies #[trigger] r@[k] == gather(self@, m)[k] by {
            assert(m[k] < self.data@.len());
            assert(res@[k] == self.data@[m[k]]);
        }
        assert(r@ =~= gather(self@, m));
        Ok(r)
    }
}

/// A column of strings, each held on its own.
#[derive(Debug)]
pub struct StrColumn {
    data: Vec<String>,
}

impl StrColumn {
    pub closed spec fn view(&self) -> Seq<Seq<char>> {
        self.data@.map_values(|s: String| s@)
    }

    /// A column of the given strings.
    pub fn new(data: Vec<String>) -> (r: StrColumn)
        ensures
            r@ == data@.map_values(|s: String| s@),
    {
        StrColumn { data }
    }

    /// The strings, in row order.
    pub fn values(&self) -> (r: &Vec<String>)
        ensures
            r@.map_values(|s: String| s@) == self@,
    {
        &self.data
    }

    /// Positions whose string equals `val`.
    pub fn filter(&self, val: Scalar) -> (r: Result<BoolColumn, VMError>)
        ensures
            match val {
                Scalar::Str(x) => r is Ok && r->Ok_0.wf() && r->Ok_0@ == eq_mask(
                    self@,
                    |s: Seq<char>| s == x@,
                ),
                _ => r == Err::<BoolColumn, VMError>(VMError::TypeError),
            },
    {
        match val {
            Scalar::Str(x) => {
                let n = self.data.len();
                let mut out = BitIndex::for_col_len(n);
                let mut i: usize = 0;
                while i < n
                    invariant
                        i <= n,
                        n == self@.len(),
                        out.wf(),
                        out@.len() == n,
                        forall|j: int| 0 <= j < i ==> out@[j] == (self@[j] == x@),
                        forall|j: int| i <= j < n ==> !out@[j],
                    decreases n - i,
                {
                    if self.data[i] == x {
                        let _ = out.set(i);
                    }
                    i = i + 1;
                }
                let r = BoolColumn::new(out);
                assert(r@ =~= eq_mask(self@, |s: Seq<char>| s == x@));
                Ok(r)
            },
            _ => Err(VMError::TypeError),
        }
    }

    /// The strings at the mask's member positions, in ascending order.
    pub fn select(&self, mask: &BoolColumn) -> (r: Result<StrColumn, VMError>)
        requires
            mask.wf(),
        ensures
            r is Ok <==> all_below(members(mask@), self@.len() as int),
            r is Err ==> r->Err_0 == VMError::IndexError,
            r is Ok ==> r->Ok_0@ == gather(self@, members(mask@)),
    {
        let res = mask.index().select(&self.data)?;
        let ghost m = members(mask@);
        assert forall|k: int| 0 <= k < res@.len() implies #[trigger] res@[k] == self.data@[m[k]] by {
            assert(m[k] < self.data@.len());
            let a = self.data@[m[k]];
            let b = res@[k];
            assert(call_ensures(String::clone, (&a,), b) ==> b == a);
        }
        let r = StrColumn { data: res };
        assert forall|k: int| 0 <= k < m.len() implies #[trigger] r@[k] == gather(self@, m)[k] by {
            assert(m[k] < self.data@.len());
            assert(res@[k] == self.data@[m[k]]);
        }
        assert(r@ =~= gather(self@, m));
        Ok(r)
    }
}

/// A column of row identifiers.
#[derive(Debug)]
pub struct EntityColumn {
    data: Vec<u64>,
}

impl EntityColumn {
    pub closed spec fn view(&self) -> Seq<u64> {
        self.data@
    }

    /// A column of the given identifiers.
    pub fn new(data: Vec<u64>) -> (r: EntityColumn)
        ensures
            r@ == data@,
    {
        EntityColumn { data }
    }

    /// The identifiers, in row order.
    pub fn values(&self) -> (r: &Vec<u64>)
        ensures
            r@ == self@,
    {
        &self.data
    }

    /// Positions whose identifier equals `val`.
    pub fn filter(&self, val: Scalar) -> (r: Result<BoolColumn, VMError>)
        ensures
            match val {
                Scalar::Entity(x) => r is Ok && r->Ok_0.wf() && r->Ok_0@ == eq_mask(
                    self@,
                    |e: u64| e == x,
                ),
                _ => r == Err::<BoolColumn, VMError>(VMError::TypeError),
            },
    {
        match val {
            Scalar::Entity(x) => {
                let n = self.data.len();
                let mut out = BitIndex::for_col_len(n);
                let mut i: usize = 0;
                while i < n
                    invariant
                        i <= n,
                        n == self@.len(),
                        out.wf(),
                        out@.len() == n,
                        forall|j: int| 0 <= j < i ==> out@[j] == (self@[j] == x),
                        forall|j: int| i <= j < n ==> !out@[j],
                    decreases n - i,
                {
                    if self.data[i] == x {
                        let _ = out.set(i);
                    }
                    i = i + 1;
                }
                let r = BoolColumn::new(out);
                assert(r@ =~= eq_mask(self@, |e: u64| e == x));
                Ok(r)
            },
            _ => Err(VMError::TypeError),
        }
    }

    /// The identifiers at the mask's member positions, in ascending order.
    pub fn select(&self, mask: &BoolColumn) -> (r: Result<EntityColumn, VMError>)
        requires
            mask.wf(),
        ensures
            r is Ok <==> all_below(members(mask@), self@.len() as int),
            r is Err ==> r->Err_0 == VMError::IndexError,
            r is Ok ==> r->Ok_0@ == gather(self@, members(mask@)),
    {
        let res = mask.index().select(&self.data)?;
        let r = EntityColumn { data: res };
        assert(r@ =~= gather(self@, members(mask@)));
        Ok(r)
    }
}

/// Total length of the first `k` rows.
pub open spec fn prefix_len(rows: Seq<Seq<u8>>, k: int) -> int
    decreases k,
{
    if k <= 0 {
        0
    } else {
        prefix_len(rows, k - 1) + rows[k - 1].len()
    }
}

/// A column of strings stored back to back in one byte buffer, delimited by offsets.
#[derive(Debug)]
pub struct InlineStrColumn {
    data: Vec<u8>,
    offsets: Vec<usize>,
}

impl InlineStrColumn {
    /// One offset more than rows, starting at zero, ending at the buffer's length,
    /// never decreasing.
    pub closed spec fn wf(&self) -> bool {
        &&& self.offsets@.len() >= 1
        &&& self.offsets@[0] == 0
        &&& self.offsets@.last() == self.data@.len()
        &&& forall|i: int, j: int|
            0 <= i <= j < self.offsets@.len() ==> self.offsets@[i] <= self.offsets@[j]
    }

    /// The byte string of each row.
    pub closed spec fn view(&self) -> Seq<Seq<u8>> {
        Seq::new(
            (self.offsets@.len() - 1) as nat,
            |i: int| self.data@.subrange(self.offsets@[i] as int, self.offsets@[i + 1] as int),
        )
    }

    /// The offsets.
    pub closed spec fn offset_seq(&self) -> Seq<usize> {
        self.offsets@
    }

    /// The byte buffer.
    pub closed spec fn byte_seq(&self) -> Seq<u8> {
        self.data@
    }

    /// Where each row starts: the total length of the rows before it; the last entry
    /// is the length of all rows together.
    pub fn offsets(&self) -> (r: &Vec<usize>)
        requires
            self.wf(),
        ensures
            r@ == self.offset_seq(),
            r@.len() == self@.len() + 1,
            forall|k: int| 0 <= k <= self@.len() ==> #[trigger] r@[k] == prefix_len(self@, k),
    {
        proof {
            self.lemma_offsets_prefix();
        }
        &self.offsets
    }

    /// The buffer: row `k` stands at offsets `k` to `k + 1`.
    pub fn bytes(&self) -> (r: &Vec<u8>)
        requires
            self.wf(),
        ensures
            r@ == self.byte_seq(),
            r@.len() == prefix_len(self@, self@.len() as int),
            forall|k: int|
                0 <= k < self@.len() ==> r@.subrange(
                    prefix_len(self@, k),
                    prefix_len(self@, k + 1),
                ) == #[trigger] self@[k],
    {
        proof {
            self.lemma_offsets_prefix();
        }
        &self.data
    }

    proof fn lemma_offsets_prefix(&self)
        requires
            self.wf(),
        ensures
            forall|k: int| 0 <= k <= self@.len() ==> #[trigger] self.offsets@[k] == prefix_len(self@, k),
    {
        assert forall|k: int| 0 <= k <= self@.len() implies #[trigger] self.offsets@[k] == prefix_len(
            self@,
            k,
        ) by {
            self.lemma_offset_at(k);
        }
    }

    proof fn lemma_offset_at(&self, k: int)
        requires
            self.wf(),
            0 <= k <= self@.len(),
        ensures
            self.offsets@[k] == prefix_len(self@, k),
        decreases k,
    {
        if k > 0 {
            self.lemma_offset_at(k - 1);
            assert(self.offsets@[k - 1] <= self.offsets@[k]);
            assert(self@[k - 1].len() == self.offsets@[k] - self.offsets@[k - 1]);
        }
    }

    /// Concatenates the UTF-8 bytes of `strs`, recording where each one ends.
    pub fn from_strs(strs: Vec<&str>) -> (r: InlineStrColumn)
        ensures
            r.wf(),
            r@ == strs@.map_values(|s: &str| encode_utf8(s@)),
    {
        let mut data: Vec<u8> = Vec::new();
        let mut offsets: Vec<usize> = vec![0];
        let n = strs.len();
        let mut i: usize = 0;
        while i < n
            invariant
                i <= n,
                n == strs@.len(),
                offsets@.len() == i + 1,
                offsets@[0] == 0,
                offsets@.last() == data@.len(),
                forall|a: int, b: int| 0 <= a <= b < offsets@.len() ==> offsets@[a] <= offsets@[b],
                forall|k: int|
                    0 <= k < i ==> data@.subrange(offsets@[k] as int, offsets@[k + 1] as int)
                        == encode_utf8(strs@[k]@),
            decreases n - i,
        {
            let b = strs[i].as_bytes();
            let start = data.len();
            let ghost before = data@;
            let mut j: usize = 0;
            while j < b.len()
                invariant
                    j <= b@.len(),
                    start == before.len(),
                    data@ == before + b@.subrange(0, j as int),
                decreases b@.len() - j,
            {
                data.push(b[j]);
                j = j + 1;
                assert(data@ =~= before + b@.subrange(0, j as int));
            }
            assert(data@ =~= before + b@);
            offsets.push(data.len());
            proof {
                assert forall|k: int| 0 <= k < i + 1 implies data@.subrange(
                    offsets@[k] as int,
                    offsets@[k + 1] as int,
                ) == encode_utf8(strs@[k as int]@) by {
                    if k < i {
                        assert(data@.subrange(offsets@[k] as int, offsets@[k + 1] as int)
                            =~= before.subrange(offsets@[k] as int, offsets@[k + 1] as int));
                    } else {
                        assert(data@.subrange(offsets@[k] as int, offsets@[k + 1] as int) =~= b@);
                    }
                }
            }
            i = i + 1;
        }
        let r = InlineStrColumn { data, offsets };
        assert(r@ =~= strs@.map_values(|s: &str| encode_utf8(s@)));
        r
    }

    /// Whether row `i` holds exactly the bytes `pat`.
    fn row_equals(&self, i: usize, pat: &[u8]) -> (r: bool)
        requires
            self.wf(),
            i < self@.len(),
        ensures
            r == (self@[i as int] == pat@),
    {
        let count = self.offsets.len();
        assert(i + 1 < count);
        let lo = self.offsets[i];
        let hi = self.offsets[i + 1];
        assert(lo <= hi);
        if hi - lo != pat.len() {
            assert(self@[i as int].len() != pat@.len());
            return false;
        }
        let mut j: usize = 0;
        while j < pat.len()
            invariant
                self.wf(),
                i < self@.len(),
                lo == self.offsets@[i as int],
                hi == self.offsets@[i + 1],
                lo <= hi <= self.data@.len(),
                hi - lo == pat@.len(),
                j <= pat@.len(),
                forall|k: int| 0 <= k < j ==> self.data@[lo + k] == pat@[k],
            decreases pat@.len() - j,
        {
            if self.data[lo + j] != pat[j] {
                assert(self@[i as int][j as int] != pat@[j as int]);
                return false;
            }
            j = j + 1;
        }
        assert(self@[i as int] =~= pat@);
        true
    }

    /// The rows at the mask's member positions, in ascending order, copied into a
    /// new buffer whose offsets follow the bytes copied so far.
    pub fn select(&self, mask: &BoolColumn) -> (r: Result<InlineStrColumn, VMError>)
        requires
            self.wf(),
            mask.wf(),
        ensures
            r is Ok <==> all_below(members(mask@), self@.len() as int),
            r is Err ==> r->Err_0 == VMError::IndexError,
            r is Ok ==> r->Ok_0.wf() && r->Ok_0@ == gather(self@, members(mask@)),
    {
        let mut idx: Vec<usize> = Vec::new();
        mask.index().for_each(&mut idx);
        let ghost m = members(mask@);
        assert(positions(idx@) =~= m);
        let rows = self.offsets.len() - 1;
        let n = idx.len();
        let mut data: Vec<u8> = Vec::new();
        let mut offsets: Vec<usize> = vec![0];
        let mut k: usize = 0;
        while k < n
            invariant
                self.wf(),
                rows == self@.len(),
                k <= n,
                n == idx@.len(),
                m == members(mask@),
                positions(idx@) == m,
                forall|j: int| 0 <= j < k ==> idx@[j] < rows,
                offsets@.len() == k + 1,
                offsets@[0] == 0,
                offsets@.last() == data@.len(),
                forall|a: int, b: int| 0 <= a <= b < offsets@.len() ==> offsets@[a] <= offsets@[b],
                forall|j: int|
                    0 <= j < k ==> data@.subrange(offsets@[j] as int, offsets@[j + 1] as int)
                        == self@[idx@[j] as int],
            decreases n - k,
        {
            let i = idx[k];
            assert(m[k as int] == i);
            if i >= rows {
                assert(!all_below(m, self@.len() as int));
                return Err(VMError::IndexError);
            }
            let lo = self.offsets[i];
            let hi = self.offsets[i + 1];
            assert(lo <= hi);
            let ghost before = data@;
            let mut j: usize = lo;
            while j < hi
                invariant
                    self.wf(),
                    lo <= j <= hi <= self.data@.len(),
                    data@ == before + self.data@.subrange(lo as int, j as int),
                decreases hi - j,
            {
                data.push(self.data[j]);
                j = j + 1;
                assert(data@ =~= before + self.data@.subrange(lo as int, j as int));
            }
            offsets.push(data.len());
            proof {
                assert(self@[i as int] == self.data@.subrange(lo as int, hi as int));
                assert forall|q: int| 0 <= q < k + 1 implies data@.subrange(
                    offsets@[q] as int,
                    offsets@[q + 1] as int,
                ) == self@[idx@[q] as int] by {
                    if q < k {
                        assert(data@.subrange(offsets@[q] as int, offsets@[q + 1] as int)
                            =~= before.subrange(offsets@[q] as int, offsets@[q + 1] as int));
                    } else {
                        assert(data@.subrange(offsets@[q] as int, offsets@[q + 1] as int)
                            =~= self.data@.subrange(lo as int, hi as int));
                    }
                }
            }
            k = k + 1;
        }
        let r = InlineStrColumn { data, offsets };
        proof {
            assert(all_below(m, self@.len() as int)) by {
                assert forall|j: int| 0 <= j < m.len() implies 0 <= #[trigger] m[j] < self@.len() by {
                    assert(m[j] == idx@[j]);
                }
            }
            assert forall|j: int| 0 <= j < m.len() implies #[trigger] r@[j] == gather(self@, m)[j] by {
                assert(m[j] == idx@[j]);
            }
            assert(r@ =~= gather(self@, m));
        }
        Ok(r)
    }

    /// Rows whose bytes equal the UTF-8 bytes of `val`.
    pub fn filter(&self, val: Scalar) -> (r: Result<BoolColumn, VMError>)
        requires
            self.wf(),
        ensures
            match val {
                Scalar::Str(x) => r is Ok && r->Ok_0.wf() && r->Ok_0@ == eq_mask(
                    self@,
                    |b: Seq<u8>| b == encode_utf8(x@),
                ),
                _ => r == Err::<BoolColumn, VMError>(VMError::TypeError),
            },
    {
        match val {
            Scalar::Str(x) => {
                let pat = x.as_str().as_bytes();
                let n = self.offsets.len() - 1;
                let mut out = BitIndex::for_col_len(n);
                let mut i: usize = 0;
                while i < n
                    invariant
                        self.wf(),
                        i <= n,
                        n == self@.len(),
                        pat@ == encode_utf8(x@),
                        out.wf(),
                        out@.len() == n,
                        forall|j: int| 0 <= j < i ==> out@[j] == (self@[j] == pat@),
                        forall|j: int| i <= j < n ==> !out@[j],
                    decreases n - i,
                {
                    if self.row_equals(i, pat) {
                        let _ = out.set(i);
                    }
                    i = i + 1;
                }
                let r = BoolColumn::new(out);
                assert(r@ =~= eq_mask(self@, |b: Seq<u8>| b == encode_utf8(x@)));
                Ok(r)
            },
            _ => Err(VMError::TypeError),
        }
    }
}

/// What a column holds, per representation.
pub enum ColView {
    Bool(Seq<bool>),
    Num(Seq<u64>),
    Str(Seq<Seq<char>>),
    Entity(Seq<u64>),
    InlineStr(Seq<Seq<u8>>),
}

/// Number of rows.
pub open spec fn view_len(c: ColView) -> int {
    match c {
        ColView::Bool(v) => v.len() as int,
        ColView::Num(v) => v.len() as int,
        ColView::Str(v) => v.len() as int,
        ColView::Entity(v) => v.len() as int,
        ColView::InlineStr(v) => v.len() as int,
    }
}

/// The mask of rows equal to `val`, or a type error where `val`'s type is not the
/// column's element type.
pub open spec fn filter_view(c: ColView, val: Scalar) -> Result<Seq<bool>, VMError> {
    match (c, val) {
        (ColView::Bool(v), Scalar::Bool(b)) => Ok(eq_mask(v, |x: bool| x == b)),
        (ColView::Num(v), Scalar::Num(x)) => Ok(eq_mask(v, |b: u64| num_eq(b, x.bits))),
        (ColView::Str(v), Scalar::Str(x)) => Ok(eq_mask(v, |t: Seq<char>| t == x@)),
        (ColView::Entity(v), Scalar::Entity(x)) => Ok(eq_mask(v, |e: u64| e == x)),
        (ColView::InlineStr(v), Scalar::Str(x)) => Ok(
            eq_mask(v, |b: Seq<u8>| b == encode_utf8(x@)),
        ),
        _ => Err(VMError::TypeError),
    }
}

/// The rows at positions `m`, in the same representation.
pub open spec fn select_view(c: ColView, m: Seq<int>) -> ColView {
    match c {
        ColView::Bool(v) => ColView::Bool(gather(v, m)),
        ColView::Num(v) => ColView::Num(gather(v, m)),
        ColView::Str(v) => ColView::Str(gather(v, m)),
        ColView::Entity(v) => ColView::Entity(gather(v, m)),
        ColView::InlineStr(v) => ColView::InlineStr(gather(v, m)),
    }
}

/// A column in one of its physical representations.
#[derive(Debug)]
pub enum Column {
    Bool(BoolColumn),
    Num(NumColumn),
    Str(StrColumn),
    Entity(EntityColumn),
    InlineStr(InlineStrColumn),
}

impl Column {
    pub open spec fn wf(&self) -> bool {
        match self {
            Column::Bool(c) => c.wf(),
            Column::InlineStr(c) => c.wf(),
            _ => true,
        }
    }

    pub open spec fn view(&self) -> ColView {
        match self {
            Column::Bool(c) => ColView::Bool(c@),
            Column::Num(c) => ColView::Num(c@),
            Column::Str(c) => ColView::Str(c@),
            Column::Entity(c) => ColView::Entity(c@),
            Column::InlineStr(c) => ColView::InlineStr(c@),
        }
    }

    /// A numeric column.
    pub fn from_nums(v: Vec<Number>) -> (r: Column)
        ensures
            r.wf(),
            r@ == ColView::Num(v@.map_values(|n: Number| n.bits)),
    {
        Column::Num(NumColumn::new(v))
    }

    /// A text column holding a copy of each string on its own.
    pub fn from_strs(v: Vec<&str>) -> (r: Column)
        ensures
            r.wf(),
            r@ == ColView::Str(v@.map_values(|s: &str| s@)),
    {
        let mut out: Vec<String> = Vec::new();
        let mut i: usize = 0;
        while i < v.len()
            invariant
                i <= v@.len(),
                out@.len() == i,
                forall|j: int| 0 <= j < i ==> out@[j]@ == v@[j]@,
            decreases v@.len() - i,
        {
            out.push(v[i].to_owned());
            i = i + 1;
        }
        let r = Column::Str(StrColumn::new(out));
        assert(out@.map_values(|s: String| s@) =~= v@.map_values(|s: &str| s@));
        r
    }

    /// A text column holding each string on its own.
    pub fn from_strings(v: Vec<String>) -> (r: Column)
        ensures
            r.wf(),
            r@ == ColView::Str(v@.map_values(|s: String| s@)),
    {
        Column::Str(StrColumn::new(v))
    }

    /// A row-identifier column.
    pub fn from_entities(v: Vec<u64>) -> (r: Column)
        ensures
            r.wf(),
            r@ == ColView::Entity(v@),
    {
        Column::Entity(EntityColumn::new(v))
    }

    /// Whether `val`'s type is the column's element type, so that filtering by it
    /// succeeds.
    pub fn accepts(&self, val: &Scalar) -> (r: bool)
        ensures
            r == (filter_view(self@, *val) is Ok),
    {
        match (self, val) {
            (Column::Bool(_), Scalar::Bool(_)) => true,
            (Column::Num(_), Scalar::Num(_)) => true,
            (Column::Str(_), Scalar::Str(_)) => true,
            (Column::Entity(_), Scalar::Entity(_)) => true,
            (Column::InlineStr(_), Scalar::Str(_)) => true,
            _ => false,
        }
    }

    /// The mask of rows equal to `val`.
    pub fn filter(&self, val: Scalar) -> (r: Result<BoolColumn, VMError>)
        requires
            self.wf(),
        ensures
            match filter_view(self@, val) {
                Ok(v) => r is Ok && r->Ok_0.wf() && r->Ok_0@ == v,
                Err(e) => r == Err::<BoolColumn, VMError>(e),
            },
    {
        match self {
            Column::Bool(col) => col.filter(val),
            Column::Num(col) => col.filter(val),
            Column::Str(col) => col.filter(val),
            Column::Entity(col) => col.filter(val),
            Column::InlineStr(col) => col.filter(val),
        }
    }

    /// The rows at the mask's member positions, in ascending order, in the same
    /// representation.
    pub fn select(&self, mask: &BoolColumn) -> (r: Result<Column, VMError>)
        requires
            self.wf(),
            mask.wf(),
        ensures
            r is Ok <==> all_below(members(mask@), view_len(self@)),
            r is Err ==> r->Err_0 == VMError::IndexError,
            r is Ok ==> r->Ok_0.wf() && r->Ok_0@ == select_view(self@, members(mask@)),
    {
        match self {
            Column::Bool(col) => Ok(Column::Bool(col.select(mask)?)),
            Column::Num(col) => Ok(Column::Num(col.select(mask)?)),
            Column::Str(col) => Ok(Column::Str(col.select(mask)?)),
            Column::Entity(col) => Ok(Column::Entity(col.select(mask)?)),
            Column::InlineStr(col) => Ok(Column::InlineStr(col.select(mask)?)),
        }
    }
}

/// Selecting by `mask2` from a column already selected by `mask1` equals selecting
/// from the column by the composed mask, in every representation.
pub proof fn lemma_select_compose(c: ColView, mask1: Seq<bool>, mask2: Seq<bool>)
    requires
        all_below(members(mask1), view_len(c)),
        all_below(members(mask2), members(mask1).len() as int),
    ensures
        select_view(select_view(c, members(mask1)), members(mask2)) == select_view(
            c,
            members(compose(members(mask1), mask2, view_len(c) as nat)),
        ),
{
    match c {
        ColView::Bool(v) => lemma_gather_compose(v, mask1, mask2),
        ColView::Num(v) => lemma_gather_compose(v, mask1, mask2),
        ColView::Str(v) => lemma_gather_compose(v, mask1, mask2),
        ColView::Entity(v) => lemma_gather_compose(v, mask1, mask2),
        ColView::InlineStr(v) => lemma_gather_compose(v, mask1, mask2),
    }
}

/// Filtering a numeric column by a not-a-number gives an empty mask, whatever the
/// column holds.
pub proof fn lemma_filter_nan(v: Seq<u64>, x: Number)
    requires
        is_nan_bits(x.bits),
    ensures
        filter_view(ColView::Num(v), Scalar::Num(x)) == Ok::<Seq<bool>, VMError>(
            Seq::new(v.len(), |i: int| false),
        ),
{
    assert(eq_mask(v, |b: u64| num_eq(b, x.bits)) =~= Seq::new(v.len(), |i: int| false));
}

/// The first `k` rows of two well-formed inline-text columns with the same rows are
/// the same bytes.
proof fn lemma_inline_prefix(a: &InlineStrColumn, b: &InlineStrColumn, k: int)
    requires
        a.wf(),
        b.wf(),
        a@ == b@,
        0 <= k <= a@.len(),
    ensures
        a.data@.subrange(0, prefix_len(a@, k)) == b.data@.subrange(0, prefix_len(a@, k)),
    decreases k,
{
    a.lemma_offsets_prefix();
    b.lemma_offsets_prefix();
    if k > 0 {
        lemma_inline_prefix(a, b, k - 1);
        let p = prefix_len(a@, k - 1);
        let q = prefix_len(a@, k);
        assert(a.offsets@[k - 1] <= a.offsets@[k]);
        assert(a.data@.subrange(0, q) =~= a.data@.subrange(0, p) + a.data@.subrange(p, q));
        assert(b.data@.subrange(0, q) =~= b.data@.subrange(0, p) + b.data@.subrange(p, q));
        assert(a.data@.subrange(p, q) == a@[k - 1]);
        assert(b.data@.subrange(p, q) == b@[k - 1]);
    }
}

/// Two well-formed inline-text columns with the same rows have the same offsets and
/// the same byte buffer: the rows determine the whole layout.
pub proof fn lemma_inline_rows_determine(a: &InlineStrColumn, b: &InlineStrColumn)
    requires
        a.wf(),
        b.wf(),
        a@ == b@,
    ensures
        a.offset_seq() == b.offset_seq(),
        a.byte_seq() == b.byte_seq(),
{
    a.lemma_offsets_prefix();
    b.lemma_offsets_prefix();
    assert(a.offsets@ =~= b.offsets@);
    let n = a@.len() as int;
    lemma_inline_prefix(a, b, n);
    assert(a.data@.subrange(0, prefix_len(a@, n)) =~= a.data@);
    assert(b.data@.subrange(0, prefix_len(a@, n)) =~= b.data@);
}

/// Selecting inline text by `mask2` after `mask1` gives the same offsets and bytes
/// as selecting once by the composed mask.
pub proof fn lemma_inline_select_compose(
    c: &InlineStrColumn,
    twice: &InlineStrColumn,
    once: &InlineStrColumn,
    mask1: Seq<bool>,
    mask2: Seq<bool>,
)
    requires
        c.wf(),
        twice.wf(),
        once.wf(),
        all_below(members(mask1), c@.len() as int),
        all_below(members(mask2), members(mask1).len() as int),
        twice@ == gather(gather(c@, members(mask1)), members(mask2)),
        once@ == gather(c@, members(compose(members(mask1), mask2, c@.len()))),
    ensures
        twice.offset_seq() == once.offset_seq(),
        twice.byte_seq() == once.byte_seq(),
{
    lemma_gather_compose(c@, mask1, mask2);
    lemma_inline_rows_determine(twice, once);
}

} // verus!
