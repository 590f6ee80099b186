//! A vector of fixed-width records stored in place in a byte buffer: a
//! little-endian `u32` count, then the records one after another.

use crate::record::{ord_of, Record};
use std::cmp::Ordering;
use vstd::multiset::Multiset;
use vstd::prelude::*;
use vstd::slice::slice_subrange;

verus! {

/// Bytes taken by the record count at the start of the buffer.
pub const VEC_SIZE_BYTES: usize = 4;

/// Why an operation on a `BigVec` was refused; the buffer is then unchanged.
#[derive(Debug, Clone, Copy, PartialEq, Eq, Structural)]
pub enum BigVecError {
    /// The buffer has no room for one more record.
    CapacityExceeded,
    /// The requested records lie beyond the current length.
    IndexOutOfRange,
    /// The record to insert in order is already present.
    DuplicateKey,
}

/// The value of four little-endian bytes.
pub open spec fn le_u32(b: Seq<u8>) -> nat {
    b[0] as nat + 256 * b[1] as nat + 65536 * b[2] as nat + 16777216 * b[3] as nat
}

/// The bytes of the `i`-th record of width `w` in `data`.
pub open spec fn record_at(data: Seq<u8>, i: int, w: nat) -> Seq<u8> {
    data.subrange(VEC_SIZE_BYTES + i * w, VEC_SIZE_BYTES + (i + 1) * w)
}

/// Keys of the records strictly increase.
pub open spec fn sorted_by_key<T: Record>(recs: Seq<Seq<u8>>) -> bool {
    forall|i: int, j: int| 0 <= i < j < recs.len() ==> T::key_of(recs[i]) < T::key_of(recs[j])
}

/// Some record has the key of `bytes`.
pub open spec fn holds_key<T: Record>(recs: Seq<Seq<u8>>, bytes: Seq<u8>) -> bool {
    exists|i: int| 0 <= i < recs.len() && T::key_of(recs[i]) == T::key_of(bytes)
}

/// The records whose verdict is `true`, in their order.
pub open spec fn select(recs: Seq<Seq<u8>>, keep: Seq<bool>) -> Seq<Seq<u8>>
    decreases recs.len(),
{
    if recs.len() == 0 || keep.len() == 0 {
        Seq::empty()
    } else {
        let prev = select(recs.drop_last(), keep.drop_last());
        if keep.last() {
            prev.push(recs.last())
        } else {
            prev
        }
    }
}

/// `f` gave `keep` on some slice holding `bytes`.
pub open spec fn verdict<F: Fn(&[u8]) -> bool>(f: F, bytes: Seq<u8>, keep: bool) -> bool {
    exists|b: &[u8]| b@ == bytes && f.ensures((b,), keep)
}

proof fn lemma_select_step(recs: Seq<Seq<u8>>, keep: Seq<bool>, i: int, k: bool)
    requires
        0 <= i < recs.len(),
        keep.len() == i,
    ensures
        select(recs.take(i + 1), keep.push(k)) == if k {
            select(recs.take(i), keep).push(recs[i])
        } else {
            select(recs.take(i), keep)
        },
{
    assert(recs.take(i + 1).drop_last() =~= recs.take(i));
    assert(keep.push(k).drop_last() =~= keep);
}

/// Records `j` of `d1` equal records `j - dst + src` of `d0` for `j` in
/// `dst..dst + cnt`, and records `j` of `d0` elsewhere, where `d1` is `d0`
/// after the bytes of records `src..src + cnt` were moved to record `dst`.
proof fn lemma_moved_records(
    d0: Seq<u8>,
    d1: Seq<u8>,
    src: int,
    dst: int,
    cnt: int,
    w: nat,
    total: int,
)
    requires
        0 <= dst <= src,
        0 <= cnt,
        0 < w,
        src + cnt <= total,
        VEC_SIZE_BYTES + total * w <= d0.len(),
        d1.len() == d0.len(),
        forall|k: int|
            0 <= k < d0.len() ==> #[trigger] d1[k] == if VEC_SIZE_BYTES + dst * w <= k
                < VEC_SIZE_BYTES + dst * w + cnt * w {
                d0[k - (VEC_SIZE_BYTES + dst * w) + (VEC_SIZE_BYTES + src * w)]
            } else {
                d0[k]
            },
    ensures
        le_u32(d1) == le_u32(d0),
        forall|j: int|
            dst <= j < dst + cnt ==> #[trigger] record_at(d1, j, w) == record_at(
                d0,
                j - dst + src,
                w,
            ),
        forall|j: int|
            (0 <= j < dst || dst + cnt <= j < total) ==> #[trigger] record_at(d1, j, w)
                == record_at(d0, j, w),
{
    assert(0 <= dst * w) by (nonlinear_arith)
        requires
            0 <= dst,
            0 < w,
    ;
    assert(d1[0] == d0[0] && d1[1] == d0[1] && d1[2] == d0[2] && d1[3] == d0[3]);
    assert forall|j: int| dst <= j < dst + cnt implies #[trigger] record_at(d1, j, w)
        == record_at(d0, j - dst + src, w) by {
        lemma_slot(j - dst, cnt, w as int);
        lemma_slot(j - dst + src, total, w as int);
        assert(j * w == dst * w + (j - dst) * w && (j - dst + src) * w == j * w - dst * w + src
            * w && (j + 1) * w == j * w + w) by (nonlinear_arith);
        assert(cnt * w + dst * w <= total * w) by (nonlinear_arith)
            requires
                dst + cnt <= total,
                0 < w,
        ;
        assert(record_at(d1, j, w) =~= record_at(d0, j - dst + src, w));
    }
    assert forall|j: int| (0 <= j < dst || dst + cnt <= j < total) implies #[trigger] record_at(
        d1,
        j,
        w,
    ) == record_at(d0, j, w) by {
        lemma_slot(j, total, w as int);
        if j < dst {
            lemma_slot_order(j + 1, dst, w as int);
        } else {
            lemma_slot_order(dst + cnt, j, w as int);
            assert((dst + cnt) * w == dst * w + cnt * w) by (nonlinear_arith);
        }
        assert(record_at(d1, j, w) =~= record_at(d0, j, w));
    }
}

/// Compaction keeps exactly what a filter keeps: where each verdict is what
/// `p` says of its record, the survivors are the records that satisfy `p`, in
/// their order; so there are as many as records satisfying `p`, and each
/// record occurs among them as often as it occurs in the input if it
/// satisfies `p`, and never otherwise.
pub proof fn lemma_select_is_filter(recs: Seq<Seq<u8>>, keep: Seq<bool>, p: spec_fn(Seq<u8>) -> bool)
    requires
        keep.len() == recs.len(),
        forall|j: int| 0 <= j < recs.len() ==> #[trigger] keep[j] == p(recs[j]),
    ensures
        select(recs, keep) == recs.filter(p),
        forall|x: Seq<u8>|
            #[trigger] select(recs, keep).to_multiset().count(x) == if p(x) {
                recs.to_multiset().count(x)
            } else {
                0
            },
    decreases recs.len(),
{
    broadcast use vstd::multiset::group_multiset_axioms;

    reveal(Seq::filter);
    if recs.len() > 0 {
        let rs = recs.drop_last();
        let ks = keep.drop_last();
        assert forall|j: int| 0 <= j < rs.len() implies #[trigger] ks[j] == p(rs[j]) by {
            assert(ks[j] == keep[j] && rs[j] == recs[j]);
        }
        lemma_select_is_filter(rs, ks, p);
        assert(keep.last() == p(recs.last()));
        assert(recs =~= rs.push(recs.last()));
        vstd::seq_lib::to_multiset_build(rs, recs.last());
        vstd::seq_lib::to_multiset_build(select(rs, ks), recs.last());
    } else {
        recs.to_multiset_ensures();
        select(recs, keep).to_multiset_ensures();
        assert(recs.to_multiset() =~= Multiset::empty());
        assert(select(recs, keep).to_multiset() =~= Multiset::empty());
    }
}

proof fn lemma_pushes_prefix<T: Record>(states: Seq<BigVec>, elems: Seq<T>, k: int)
    requires
        states.len() == elems.len() + 1,
        states[0].count() == 0,
        forall|i: int|
            0 <= i < elems.len() ==> #[trigger] states[i + 1].records(T::spec_width())
                == states[i].records(T::spec_width()).push(elems[i].spec_encode()),
        0 <= k <= elems.len(),
    ensures
        states[k].records(T::spec_width()) == Seq::new(k as nat, |i: int| elems[i].spec_encode()),
    decreases k,
{
    if k == 0 {
        assert(states[0].records(T::spec_width()) =~= Seq::new(0, |i: int| elems[i].spec_encode()));
    } else {
        lemma_pushes_prefix(states, elems, k - 1);
        let i = k - 1;
        assert(states[i + 1].records(T::spec_width()) == states[i].records(T::spec_width()).push(
            elems[i].spec_encode(),
        ));
        assert(states[k].records(T::spec_width()) =~= Seq::new(
            k as nat,
            |i: int| elems[i].spec_encode(),
        ));
    }
}

/// Pushing `elems` one after another onto an empty vector, each push having
/// room, leaves `elems.len()` records: the encodings of `elems`, in the order
/// they were pushed.
pub proof fn lemma_pushes_in_order<T: Record>(states: Seq<BigVec>, elems: Seq<T>)
    requires
        states.len() == elems.len() + 1,
        states[0].count() == 0,
        forall|i: int|
            0 <= i < elems.len() ==> #[trigger] states[i + 1].records(T::spec_width())
                == states[i].records(T::spec_width()).push(elems[i].spec_encode()),
    ensures
        states.last().count() == elems.len(),
        states.last().records(T::spec_width()) == Seq::new(
            elems.len(),
            |i: int| elems[i].spec_encode(),
        ),
{
    lemma_pushes_prefix(states, elems, elems.len() as int);
    assert(states.last() == states[elems.len() as int]);
    assert(states.last().records(T::spec_width()).len() == states.last().count());
}

/// A vector of fixed-width records kept inside a byte buffer of fixed size.
pub struct BigVec {
    /// The buffer: the record count, then the records.
    pub data: Vec<u8>,
}

proof fn lemma_slot(i: int, n: int, w: int)
    requires
        0 <= i < n,
        0 < w,
    ensures
        (i + 1) * w <= n * w,
        (i + 1) * w == i * w + w,
        0 <= i * w,
{
    assert((i + 1) * w <= n * w && (i + 1) * w == i * w + w && 0 <= i * w) by (nonlinear_arith)
        requires
            0 <= i < n,
            0 < w,
    ;
}

proof fn lemma_slot_order(i: int, j: int, w: int)
    requires
        0 <= i <= j,
        0 < w,
    ensures
        i * w <= j * w,
        (j - i) * w == j * w - i * w,
{
    assert(i * w <= j * w && (j - i) * w == j * w - i * w) by (nonlinear_arith)
        requires
            0 <= i <= j,
            0 < w,
    ;
}

/// Relies on `<[u8]>::copy_within`: copies the `n` bytes at `src` to `dst`,
/// also where the two ranges overlap.
#[verifier::external_body]
fn move_bytes(data: &mut Vec<u8>, src: usize, n: usize, dst: usize)
    requires
        src + n <= old(data)@.len(),
        dst + n <= old(data)@.len(),
    ensures
        final(data)@.len() == old(data)@.len(),
        forall|k: int|
            0 <= k < old(data)@.len() ==> #[trigger] final(data)@[k] == if dst <= k < dst + n {
                old(data)@[k - dst + src]
            } else {
                old(data)@[k]
            },
{
    data.copy_within(src..src + n, dst);
}

/// Writes `bytes` into `data` at `at`.
fn write_bytes(data: &mut Vec<u8>, at: usize, bytes: &Vec<u8>)
    requires
        at + bytes@.len() <= old(data)@.len(),
    ensures
        final(data)@ == old(data)@.subrange(0, at as int) + bytes@ + old(data)@.subrange(
            at + bytes@.len(),
            old(data)@.len() as int,
        ),
{
    let total: usize = data.len();
    let mut k: usize = 0;
    while k < bytes.len()
        invariant
            k <= bytes@.len(),
            total == data@.len(),
            at + bytes@.len() <= data@.len(),
            data@.len() == old(data)@.len(),
            forall|t: int|
                0 <= t < data@.len() ==> #[trigger] data@[t] == if at <= t < at + k {
                    bytes@[t - at]
                } else {
                    old(data)@[t]
                },
        decreases bytes@.len() - k,
    {
        data.set(at + k, bytes[k]);
        k = k + 1;
    }
    assert(data@ =~= old(data)@.subrange(0, at as int) + bytes@ + old(data)@.subrange(
        at + bytes@.len(),
        old(data)@.len() as int,
    ));
}

impl BigVec {
    /// The record count held in the first four bytes.
    pub open spec fn count(&self) -> nat {
        le_u32(self.data@)
    }

    /// The buffer holds the count and `count()` records of width `w`.
    pub open spec fn wf(&self, w: nat) -> bool {
        &&& self.data@.len() >= VEC_SIZE_BYTES
        &&& VEC_SIZE_BYTES + self.count() * w <= self.data@.len()
    }

    /// The stored records, each as its `w` bytes.
    pub open spec fn records(&self, w: nat) -> Seq<Seq<u8>> {
        Seq::new(self.count(), |i: int| record_at(self.data@, i, w))
    }

    /// One more record of width `w` fits in the buffer, and in the count.
    pub open spec fn has_room(&self, w: nat) -> bool {
        &&& self.count() < u32::MAX
        &&& VEC_SIZE_BYTES + (self.count() + 1) * w <= self.data@.len()
    }

    /// Number of stored records.
    pub fn len(&self) -> (r: u32)
        requires
            self.data@.len() >= VEC_SIZE_BYTES,
        ensures
            r as nat == self.count(),
    {
        let r = self.data[0] as u32 + 256 * self.data[1] as u32 + 65536 * self.data[2] as u32
            + 16777216 * self.data[3] as u32;
        r
    }

    /// Whether no record is stored.
    pub fn is_empty(&self) -> (r: bool)
        requires
            self.data@.len() >= VEC_SIZE_BYTES,
        ensures
            r == (self.count() == 0),
    {
        self.len() == 0
    }

    /// The bytes of the `i`-th record.
    fn record_bytes(&self, i: usize, w: usize) -> (r: &[u8])
        requires
            self.wf(w as nat),
            i < self.count(),
            w > 0,
        ensures
            r@ == self.records(w as nat)[i as int],
            r@.len() == w,
    {
        proof {
            lemma_slot(i as int, self.count() as int, w as int);
        }
        let total: usize = self.data.len();
        assert(VEC_SIZE_BYTES + i * w + w <= total);
        let start = VEC_SIZE_BYTES + i * w;
        slice_subrange(self.data.as_slice(), start, start + w)
    }

    /// Appends `element` after the last record. Without room for it the buffer
    /// is left unchanged and `CapacityExceeded` returned.
    pub fn push<T: Record>(&mut self, element: T) -> (r: Result<(), BigVecError>)
        requires
            old(self).wf(T::spec_width()),
        ensures
            final(self).data@.len() == old(self).data@.len(),
            final(self).wf(T::spec_width()),
            old(self).has_room(T::spec_width()) ==> r is Ok && final(self).count() == old(self).count() + 1
                && final(self).records(T::spec_width())
                == old(self).records(T::spec_width()).push(element.spec_encode()),
            !old(self).has_room(T::spec_width()) ==> r == Err::<(), BigVecError>(
                BigVecError::CapacityExceeded,
            ) && final(self).data@ == old(self).data@,
    {
        let w = T::width();
        let n = self.len();
        let total = self.data.len();
        let used = VEC_SIZE_BYTES + n as usize * w;
        if n == u32::MAX || total - used < w {
            proof {
                assert(VEC_SIZE_BYTES + (n + 1) * w == used + w) by (nonlinear_arith)
                    requires
                        used == VEC_SIZE_BYTES + n * w,
                ;
            }
            return Err(BigVecError::CapacityExceeded);
        }
        let enc = element.encode();
        let ghost d0 = self.data@;
        write_bytes(&mut self.data, used, &enc);
        let ghost d1 = self.data@;
        self.set_len(n + 1);
        proof {
            let ws = w as nat;
            assert(VEC_SIZE_BYTES + (n + 1) * w == used + w) by (nonlinear_arith)
                requires
                    used == VEC_SIZE_BYTES + n * w,
            ;
            assert forall|j: int| 0 <= j < n implies #[trigger] record_at(self.data@, j, ws)
                =~= record_at(d0, j, ws) by {
                lemma_slot(j, n as int, w as int);
            }
            assert(record_at(self.data@, n as int, ws) =~= enc@);
            assert(self.records(ws) =~= old(self).records(ws).push(element.spec_encode()));
        }
        Ok(())
    }

    /// Where `element` is among the sorted records: its index and `true`, or
    /// the index it would be inserted at and `false`.
    fn binary_search<T: Record>(&self, element: &T) -> (r: (usize, bool))
        requires
            self.wf(T::spec_width()),
            sorted_by_key::<T>(self.records(T::spec_width())),
        ensures
            r.0 <= self.count(),
            r.1 ==> r.0 < self.count() && T::key_of(self.records(T::spec_width())[r.0 as int])
                == T::key_of(element.spec_encode()),
            !r.1 ==> (forall|j: int|
                0 <= j < r.0 ==> T::key_of(#[trigger] self.records(T::spec_width())[j]) < T::key_of(
                    element.spec_encode(),
                )) && (forall|j: int|
                r.0 <= j < self.count() ==> T::key_of(#[trigger] self.records(T::spec_width())[j])
                    > T::key_of(element.spec_encode())),
    {
        let w = T::width();
        let n = self.len() as usize;
        let ghost recs = self.records(w as nat);
        let ghost k = T::key_of(element.spec_encode());
        let mut lo: usize = 0;
        let mut hi: usize = n;
        while lo < hi
            invariant
                self.wf(w as nat),
                w as nat == T::spec_width(),
                w > 0,
                n == self.count(),
                recs == self.records(w as nat),
                k == T::key_of(element.spec_encode()),
                sorted_by_key::<T>(recs),
                lo <= hi <= n,
                forall|j: int| 0 <= j < lo ==> T::key_of(#[trigger] recs[j]) < k,
                forall|j: int| hi <= j < n ==> T::key_of(#[trigger] recs[j]) > k,
            decreases hi - lo,
        {
            let mid = lo + (hi - lo) / 2;
            let rec = self.record_bytes(mid, w);
            match element.compare(rec) {
                Ordering::Equal => {
                    return (mid, true);
                },
                Ordering::Less => {
                    hi = mid;
                },
                Ordering::Greater => {
                    lo = mid + 1;
                },
            }
        }
        (lo, false)
    }

    /// The record at `index`, decoded, or `None` past the end.
    pub fn get<T: Record>(&self, index: usize) -> (r: Option<T>)
        requires
            self.wf(T::spec_width()),
        ensures
            index < self.count() ==> r is Some && r.unwrap().spec_encode() == self.records(
                T::spec_width(),
            )[index as int],
            index >= self.count() ==> r is None,
    {
        let w = T::width();
        if index < self.len() as usize {
            Some(T::decode(self.record_bytes(index, w)))
        } else {
            None
        }
    }

    /// The stored record with the key of `element`, decoded, if there is one.
    pub fn find<T: Record>(&self, element: &T) -> (r: Option<T>)
        requires
            self.wf(T::spec_width()),
            sorted_by_key::<T>(self.records(T::spec_width())),
        ensures
            r is None <==> !holds_key::<T>(self.records(T::spec_width()), element.spec_encode()),
            forall|i: int|
                0 <= i < self.count() && T::key_of(#[trigger] self.records(T::spec_width())[i])
                    == T::key_of(element.spec_encode()) ==> r is Some && r.unwrap().spec_encode()
                    == self.records(T::spec_width())[i],
    {
        let (index, is_found) = self.binary_search(element);
        if is_found {
            self.get::<T>(index)
        } else {
            None
        }
    }

    /// The index of the stored record with the key of `element`, if there is
    /// one; `set` writes through it.
    pub fn find_mut<T: Record>(&self, element: &T) -> (r: Option<usize>)
        requires
            self.wf(T::spec_width()),
            sorted_by_key::<T>(self.records(T::spec_width())),
        ensures
            r is None <==> !holds_key::<T>(self.records(T::spec_width()), element.spec_encode()),
            r is Some ==> r.unwrap() < self.count() && T::key_of(
                self.records(T::spec_width())[r.unwrap() as int],
            ) == T::key_of(element.spec_encode()),
    {
        let (index, is_found) = self.binary_search(element);
        if is_found {
            Some(index)
        } else {
            None
        }
    }

    /// Inserts `element` where it keeps the records sorted. If its key is
    /// already present, `DuplicateKey`; if there is no room, `CapacityExceeded`;
    /// either way the buffer is unchanged.
    pub fn insert_in_order<T: Record>(&mut self, element: &T) -> (r: Result<(), BigVecError>)
        requires
            old(self).wf(T::spec_width()),
            sorted_by_key::<T>(old(self).records(T::spec_width())),
        ensures
            final(self).data@.len() == old(self).data@.len(),
            final(self).wf(T::spec_width()),
            sorted_by_key::<T>(final(self).records(T::spec_width())),
            holds_key::<T>(old(self).records(T::spec_width()), element.spec_encode()) ==> r
                == Err::<(), BigVecError>(BigVecError::DuplicateKey) && final(self).data@ == old(
                self,
            ).data@,
            !holds_key::<T>(old(self).records(T::spec_width()), element.spec_encode())
                && !old(self).has_room(T::spec_width()) ==> r == Err::<(), BigVecError>(
                BigVecError::CapacityExceeded,
            ) && final(self).data@ == old(self).data@,
            !holds_key::<T>(old(self).records(T::spec_width()), element.spec_encode())
                && old(self).has_room(T::spec_width()) ==> r is Ok && final(self).count() == old(
                self,
            ).count() + 1 && exists|i: int|
                0 <= i <= old(self).count() && final(self).records(T::spec_width()) == old(
                    self,
                ).records(T::spec_width()).insert(i, element.spec_encode()),
    {
        let ghost ws = T::spec_width();
        let ghost recs = self.records(ws);
        let (index, is_found) = self.binary_search(element);
        if is_found {
            return Err(BigVecError::DuplicateKey);
        }
        let w = T::width();
        let n = self.len();
        let total = self.data.len();
        let used = VEC_SIZE_BYTES + n as usize * w;
        proof {
            assert(VEC_SIZE_BYTES + (n + 1) * w == used + w) by (nonlinear_arith)
                requires
                    used == VEC_SIZE_BYTES + n * w,
            ;
            if holds_key::<T>(recs, element.spec_encode()) {
                let j = choose|j: int|
                    0 <= j < recs.len() && T::key_of(recs[j]) == T::key_of(element.spec_encode());
                assert(T::key_of(recs[j]) == T::key_of(self.records(ws)[j]));
            }
        }
        if n == u32::MAX || total - used < w {
            return Err(BigVecError::CapacityExceeded);
        }
        proof {
            lemma_slot_order(index as int, n as int, w as int);
        }
        let start = VEC_SIZE_BYTES + index * w;
        let ghost d0 = self.data@;
        move_bytes(&mut self.data, start, (n as usize - index) * w, start + w);
        let ghost d1 = self.data@;
        let enc = element.encode();
        write_bytes(&mut self.data, start, &enc);
        let ghost d2 = self.data@;
        self.set_len(n + 1);
        proof {
            let new_recs = recs.insert(index as int, element.spec_encode());
            assert forall|j: int| 0 <= j < n + 1 implies #[trigger] record_at(self.data@, j, ws)
                =~= new_recs[j] by {
                lemma_slot(j, n as int + 1, w as int);
                if j < index {
                    lemma_slot_order(j + 1, index as int, w as int);
                    assert(record_at(self.data@, j, ws) =~= record_at(d0, j, ws));
                } else if j == index {
                    assert(record_at(self.data@, j, ws) =~= enc@);
                } else {
                    lemma_slot_order(index as int, j - 1, w as int);
                    lemma_slot(j - 1, n as int, w as int);
                    assert forall|t: int| 0 <= t < w implies #[trigger] record_at(
                        self.data@,
                        j,
                        ws,
                    )[t] == record_at(d0, j - 1, ws)[t] by {
                        assert(d1[VEC_SIZE_BYTES + j * w + t] == d0[VEC_SIZE_BYTES + (j - 1) * w
                            + t]);
                    }
                    assert(record_at(self.data@, j, ws) =~= record_at(d0, j - 1, ws));
                }
            }
            assert(self.records(ws) =~= new_recs);
            assert forall|a: int, b: int| 0 <= a < b < new_recs.len() implies T::key_of(
                #[trigger] new_recs[a],
            ) < T::key_of(#[trigger] new_recs[b]) by {
                if b < index {
                } else if b == index {
                } else if a == index {
                } else if a < index {
                    assert(new_recs[b] == recs[b - 1]);
                } else {
                    assert(new_recs[b] == recs[b - 1]);
                    assert(new_recs[a] == recs[a - 1]);
                }
            }
        }
        Ok(())
    }

    /// Overwrites the record at `index` with `element`; `IndexOutOfRange`, and
    /// the buffer unchanged, past the end.
    pub fn set<T: Record>(&mut self, index: usize, element: &T) -> (r: Result<(), BigVecError>)
        requires
            old(self).wf(T::spec_width()),
        ensures
            final(self).data@.len() == old(self).data@.len(),
            final(self).wf(T::spec_width()),
            final(self).count() == old(self).count(),
            index < old(self).count() ==> r is Ok && final(self).records(T::spec_width()) == old(
                self,
            ).records(T::spec_width()).update(index as int, element.spec_encode()),
            index >= old(self).count() ==> r == Err::<(), BigVecError>(
                BigVecError::IndexOutOfRange,
            ) && final(self).data@ == old(self).data@,
    {
        let w = T::width();
        let n = self.len() as usize;
        if index >= n {
            return Err(BigVecError::IndexOutOfRange);
        }
        let ghost ws = T::spec_width();
        let ghost d0 = self.data@;
        proof {
            lemma_slot(index as int, n as int, w as int);
        }
        let total: usize = self.data.len();
        let start = VEC_SIZE_BYTES + index * w;
        let enc = element.encode();
        write_bytes(&mut self.data, start, &enc);
        proof {
            assert(le_u32(self.data@) == le_u32(d0));
            assert forall|j: int| 0 <= j < n implies #[trigger] record_at(self.data@, j, ws)
                =~= old(self).records(ws).update(index as int, element.spec_encode())[j] by {
                lemma_slot(j, n as int, w as int);
                if j < index {
                    lemma_slot_order(j + 1, index as int, w as int);
                } else if j > index {
                    lemma_slot_order(index as int + 1, j, w as int);
                }
            }
            assert(self.records(ws) =~= old(self).records(ws).update(
                index as int,
                element.spec_encode(),
            ));
        }
        Ok(())
    }

    /// Handles, for `set` and `get`, to the `len` records from `skip` on; one
    /// per record, so no two of them stand for the same bytes.
    /// `IndexOutOfRange` where `skip + len` passes the current length.
    pub fn deserialize_mut_slice(&self, skip: usize, len: usize) -> (r: Result<
        Vec<usize>,
        BigVecError,
    >)
        requires
            self.data@.len() >= VEC_SIZE_BYTES,
        ensures
            skip + len <= self.count() ==> r is Ok && r.unwrap()@ == Seq::new(
                len as nat,
                |i: int| (skip + i) as usize,
            ),
            skip + len > self.count() ==> r == Err::<Vec<usize>, BigVecError>(
                BigVecError::IndexOutOfRange,
            ),
    {
        let n = self.len() as usize;
        if skip > n || len > n - skip {
            return Err(BigVecError::IndexOutOfRange);
        }
        let mut handles: Vec<usize> = Vec::new();
        let mut i: usize = 0;
        while i < len
            invariant
                i <= len,
                skip + len <= n,
                handles@ == Seq::new(i as nat, |k: int| (skip + k) as usize),
            decreases len - i,
        {
            handles.push(skip + i);
            i = i + 1;
            assert(handles@ =~= Seq::new(i as nat, |k: int| (skip + k) as usize));
        }
        Ok(handles)
    }

    /// Keeps the records on which `predicate` returns `true`, in their order,
    /// and drops the others. Each run of kept records that follows a dropped
    /// one is moved left in one block move.
    #[verifier::rlimit(50)]
    pub fn retain<T: Record, F: Fn(&[u8]) -> bool>(&mut self, predicate: F) -> (r: Result<
        (),
        BigVecError,
    >)
        requires
            old(self).wf(T::spec_width()),
            forall|b: &[u8]| b@.len() == T::spec_width() ==> #[trigger] predicate.requires((b,)),
        ensures
            r is Ok,
            final(self).data@.len() == old(self).data@.len(),
            final(self).wf(T::spec_width()),
            exists|keep: Seq<bool>|
                {
                    &&& keep.len() == old(self).count()
                    &&& forall|j: int|
                        0 <= j < keep.len() ==> verdict(
                            predicate,
                            old(self).records(T::spec_width())[j],
                            #[trigger] keep[j],
                        )
                    &&& final(self).records(T::spec_width()) == select(
                        old(self).records(T::spec_width()),
                        keep,
                    )
                },
    {
        let w = T::width();
        let n = self.len() as usize;
        let total: usize = self.data.len();
        let ghost ws = T::spec_width();
        let ghost recs = self.records(ws);
        let ghost d_start = self.data@;
        let ghost mut keep: Seq<bool> = Seq::empty();
        let ghost mut sel: Seq<Seq<u8>> = Seq::empty();
        let mut kept: usize = 0;
        let mut run_start: usize = 0;
        let mut i: usize = 0;
        proof {
            assert(recs.take(0) =~= Seq::<Seq<u8>>::empty());
        }
        while i < n
            invariant
                w as nat == ws,
                ws == T::spec_width(),
                w > 0,
                n == old(self).count(),
                total == self.data@.len(),
                self.data@.len() == d_start.len(),
                d_start == old(self).data@,
                recs == old(self).records(ws),
                old(self).wf(ws),
                forall|b: &[u8]| b@.len() == T::spec_width() ==> #[trigger] predicate.requires((b,)),
                le_u32(self.data@) == le_u32(d_start),
                kept <= run_start <= i <= n,
                keep.len() == i,
                forall|j: int| 0 <= j < i ==> verdict(predicate, recs[j], #[trigger] keep[j]),
                sel == select(recs.take(i as int), keep),
                sel.len() == kept + (i - run_start),
                forall|j: int| 0 <= j < kept ==> #[trigger] record_at(self.data@, j, ws) == sel[j],
                forall|j: int| run_start <= j < i ==> #[trigger] recs[j] == sel[kept + j - run_start],
                forall|j: int| run_start <= j < n ==> #[trigger] record_at(self.data@, j, ws) == recs[j],
            decreases n - i,
        {
            proof {
                lemma_slot(i as int, n as int, w as int);
            }
            let start = VEC_SIZE_BYTES + i * w;
            let rec = slice_subrange(self.data.as_slice(), start, start + w);
            proof {
                assert(rec@ == record_at(self.data@, i as int, ws));
            }
            let k = predicate(rec);
            let ghost sel0 = sel;
            let ghost d_head = self.data@;
            proof {
                lemma_select_step(recs, keep, i as int, k);
                keep = keep.push(k);
                sel = select(recs.take(i + 1), keep);
                assert(verdict(predicate, recs[i as int], keep[i as int]));
            }
            if !k {
                if kept < run_start && run_start < i {
                    proof {
                        lemma_slot_order(run_start as int, i as int, w as int);
                        lemma_slot_order(kept as int, i as int, w as int);
                        lemma_slot_order(i as int, n as int, w as int);
                        assert((i - run_start) * w + run_start * w == i * w) by (nonlinear_arith);
                    assert(kept * w + (i - run_start) * w <= i * w) by (nonlinear_arith)
                        requires
                            kept + (i - run_start) <= i,
                            0 < w,
                    ;
                    }
                    let ghost d0 = self.data@;
                    self.move_records(run_start, kept, i - run_start, w, n);
                    proof {
                        assert forall|j: int|
                            kept <= j < kept + (i - run_start) implies #[trigger] record_at(
                            self.data@,
                            j,
                            ws,
                        ) == sel[j] by {
                            let j2 = j - kept + run_start;
                            assert(record_at(self.data@, j, ws) == record_at(d0, j2, ws));
                            assert(run_start <= j2 < i);
                            assert(record_at(d_head, j2, ws) == recs[j2]);
                            assert(recs[j2] == sel0[kept + j2 - run_start]);
                        }
                    }
                }
                kept = kept + (i - run_start);
                run_start = i + 1;
            }
            i = i + 1;
        }
        if kept < run_start && run_start < n {
            proof {
                lemma_slot_order(run_start as int, n as int, w as int);
                lemma_slot_order(kept as int, n as int, w as int);
                assert((n - run_start) * w + run_start * w == n * w) by (nonlinear_arith);
                assert(kept * w + (n - run_start) * w <= n * w) by (nonlinear_arith)
                    requires
                        kept + (n - run_start) <= n,
                        0 < w,
                ;
            }
            let ghost d0 = self.data@;
            self.move_records(run_start, kept, n - run_start, w, n);
            proof {
                assert forall|j: int|
                    kept <= j < kept + (n - run_start) implies #[trigger] record_at(
                    self.data@,
                    j,
                    ws,
                ) == sel[j] by {
                    let j2 = j - kept + run_start;
                    assert(record_at(self.data@, j, ws) == record_at(d0, j2, ws));
                    assert(run_start <= j2 < n);
                    assert(record_at(d0, j2, ws) == recs[j2]);
                    assert(recs[j2] == sel[kept + j2 - run_start]);
                }
            }
        }
        proof {
            assert forall|j: int| kept <= j < kept + (n - run_start) implies #[trigger] record_at(
                self.data@,
                j,
                ws,
            ) == sel[j] by {
                if kept == run_start || run_start >= n {
                    assert(recs[j] == sel[kept + j - run_start]);
                }
            }
        }
        kept = kept + (n - run_start);
        proof {
            lemma_slot_order(kept as int, n as int, w as int);
        }
        let ghost d1 = self.data@;
        self.set_len(kept as u32);
        proof {
            assert(recs.take(n as int) =~= recs);
            assert forall|j: int| 0 <= j < kept implies #[trigger] record_at(self.data@, j, ws)
                == record_at(d1, j, ws) by {
                lemma_slot(j, n as int, w as int);
                assert(record_at(self.data@, j, ws) =~= record_at(d1, j, ws));
            }
            assert(self.records(ws) =~= select(recs, keep));
        }
        Ok(())
    }

    /// Moves records `src..src + cnt` to `dst..dst + cnt` in one block move.
    fn move_records(&mut self, src: usize, dst: usize, cnt: usize, w: usize, total: usize)
        requires
            dst <= src,
            src + cnt <= total,
            0 < w,
            VEC_SIZE_BYTES + total * w <= old(self).data@.len(),
        ensures
            final(self).data@.len() == old(self).data@.len(),
            le_u32(final(self).data@) == le_u32(old(self).data@),
            forall|j: int|
                dst <= j < dst + cnt ==> #[trigger] record_at(final(self).data@, j, w as nat)
                    == record_at(old(self).data@, j - dst + src, w as nat),
            forall|j: int|
                (0 <= j < dst || dst + cnt <= j < total) ==> #[trigger] record_at(
                    final(self).data@,
                    j,
                    w as nat,
                ) == record_at(old(self).data@, j, w as nat),
    {
        proof {
            lemma_slot_order(src as int + cnt as int, total as int, w as int);
            lemma_slot_order(dst as int + cnt as int, total as int, w as int);
            assert(cnt * w + src * w == (src + cnt) * w) by (nonlinear_arith);
            assert(cnt * w + dst * w == (dst + cnt) * w) by (nonlinear_arith);
        }
        let len: usize = self.data.len();
        assert(0 <= cnt * w && 0 <= dst * w) by (nonlinear_arith)
            requires
                0 < w,
        ;
        let ghost d0 = self.data@;
        move_bytes(&mut self.data, VEC_SIZE_BYTES + src * w, cnt * w, VEC_SIZE_BYTES + dst * w);
        proof {
            lemma_moved_records(
                d0,
                self.data@,
                src as int,
                dst as int,
                cnt as int,
                w as nat,
                total as int,
            );
        }
    }

    /// Writes `n` as the record count, leaving the other bytes alone.
    fn set_len(&mut self, n: u32)
        requires
            old(self).data@.len() >= VEC_SIZE_BYTES,
        ensures
            final(self).count() == n as nat,
            final(self).data@.len() == old(self).data@.len(),
            forall|k: int|
                VEC_SIZE_BYTES <= k < old(self).data@.len() ==> #[trigger] final(self).data@[k]
                    == old(self).data@[k],
    {
        let b0 = (n % 256) as u8;
        let b1 = ((n / 256) % 256) as u8;
        let b2 = ((n / 65536) % 256) as u8;
        let b3 = (n / 16777216) as u8;
        self.data.set(0, b0);
        self.data.set(1, b1);
        self.data.set(2, b2);
        self.data.set(3, b3);
    }
}

} // verus!
