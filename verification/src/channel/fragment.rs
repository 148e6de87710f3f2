//! Reassembly of one fragmented message.

use vstd::prelude::*;

use bytes::Bytes;

use crate::buffer;

verus! {

/// A message under reassembly.
#[derive(Debug)]
pub struct FragmentBuffer {
    pub fragment_count: u32,
    pub received: u32,
    pub buf: Vec<u8>,
    /// Bitmask: bit i set = fragment i arrived.
    pub mask: Vec<u64>,
}

/// What a reassembly has: the number of fragments it waits for, the bytes so
/// far (zero where none came), and the fragments that came.
#[verifier::ext_equal]
pub struct ReassemblyView {
    pub fragment_count: u32,
    pub buf: Seq<u8>,
    pub got: Set<int>,
}

/// Bit `i` of a bitmask of 64-bit words.
pub open spec fn mask_bit(mask: Seq<u64>, i: int) -> bool {
    mask[i / 64] & (1u64 << ((i % 64) as u64)) != 0
}

/// A bitmask with bit `i` set and every other bit as it was.
pub open spec fn with_bit(mask: Seq<u64>, i: int) -> Seq<u64> {
    mask.update(i / 64, mask[i / 64] | (1u64 << ((i % 64) as u64)))
}

/// `s` with `d` written over it from position `at` on.
pub open spec fn overwrite(s: Seq<u8>, at: int, d: Seq<u8>) -> Seq<u8> {
    s.take(at) + d + s.skip(at + d.len())
}

impl ReassemblyView {
    /// A reassembly to which nothing came yet.
    pub open spec fn fresh(total_length: int, fragment_count: u32) -> Self {
        ReassemblyView {
            fragment_count,
            buf: Seq::new(total_length as nat, |i: int| 0u8),
            got: Set::empty(),
        }
    }

    /// Whether a fragment is taken: its number is in range and new, and its
    /// data lies within the message.
    pub open spec fn accepts(self, number: int, offset: int, data: Seq<u8>) -> bool {
        &&& 0 <= number < self.fragment_count
        &&& !self.got.contains(number)
        &&& 0 <= offset
        &&& offset + data.len() <= self.buf.len()
    }

    /// The reassembly after a fragment.
    pub open spec fn receive(self, number: int, offset: int, data: Seq<u8>) -> Self {
        if self.accepts(number, offset, data) {
            ReassemblyView {
                buf: overwrite(self.buf, offset, data),
                got: self.got.insert(number),
                ..self
            }
        } else {
            self
        }
    }

    /// All fragments came.
    pub open spec fn complete(self) -> bool {
        self.got.len() == self.fragment_count
    }

    /// What holds of every reassembly: the fragments that came are among
    /// those waited for.
    pub open spec fn wf(self) -> bool {
        self.got.subset_of(vstd::set_lib::set_int_range(0, self.fragment_count as int))
    }
}

impl View for FragmentBuffer {
    type V = ReassemblyView;

    open spec fn view(&self) -> ReassemblyView {
        ReassemblyView {
            fragment_count: self.fragment_count,
            buf: self.buf@,
            got: Set::new(|i: int| 0 <= i < self.fragment_count && mask_bit(self.mask@, i)),
        }
    }
}

proof fn lemma_set_bit(w: u64, b: u64, j: u64)
    by (bit_vector)
    requires
        b < 64,
        j < 64,
    ensures
        ((w | (1u64 << b)) & (1u64 << j) != 0) == (j == b || w & (1u64 << j) != 0),
{
}

proof fn lemma_zero_bit(j: u64)
    by (bit_vector)
    ensures
        0u64 & (1u64 << j) == 0,
{
}

/// A set of fragment numbers below `n` has at most `n` elements.
pub proof fn lemma_bounded(got: Set<int>, n: int)
    requires
        0 <= n,
        got.subset_of(vstd::set_lib::set_int_range(0, n)),
    ensures
        got.finite(),
        got.len() <= n,
{
    vstd::set_lib::lemma_int_range(0, n);
    vstd::set_lib::lemma_len_subset(got, vstd::set_lib::set_int_range(0, n));
}

impl FragmentBuffer {
    /// The mask has a bit for each fragment and `received` counts the set
    /// ones.
    pub open spec fn wf(&self) -> bool {
        &&& self.mask@.len() == (self.fragment_count + 63) / 64
        &&& self.received == self@.got.len()
    }

    /// A reassembly of `fragment_count` fragments into `total_length` bytes.
    pub fn new(total_length: usize, fragment_count: u32) -> (r: Self)
        requires
            total_length <= isize::MAX,
        ensures
            r.wf(),
            r@ == ReassemblyView::fresh(total_length as int, fragment_count),
            forall|w: int| 0 <= w < r.mask@.len() ==> #[trigger] r.mask@[w] == 0,
    {
        let n: usize = fragment_count as usize;
        let mask_len: usize = n / 64 + if n % 64 != 0 {
            1
        } else {
            0
        };
        let r = Self {
            fragment_count,
            received: 0,
            buf: vec![0u8; total_length],
            mask: vec![0u64; mask_len],
        };
        proof {
            assert forall|i: int| 0 <= i < fragment_count implies !mask_bit(r.mask@, i) by {
                lemma_zero_bit((i % 64) as u64);
            }
            assert(r@.got =~= Set::<int>::empty());
            assert(r@.buf =~= Seq::new(total_length as nat, |i: int| 0u8));
        }
        r
    }

    /// Returns true if this was the last fragment needed.
    ///
    /// Returns false (without updating state) if the fragment is a duplicate,
    /// out-of-range, or its data extends beyond the declared `total_length`.
    pub fn receive(&mut self, fragment_number: u32, offset: usize, data: &[u8]) -> (done: bool)
        requires
            old(self).wf(),
        ensures
            final(self).wf(),
            final(self)@ == old(self)@.receive(fragment_number as int, offset as int, data@),
            done == (old(self)@.accepts(fragment_number as int, offset as int, data@)
                && final(self)@.complete()),
            final(self).mask@ == (if old(self)@.accepts(
                fragment_number as int,
                offset as int,
                data@,
            ) {
                with_bit(old(self).mask@, fragment_number as int)
            } else {
                old(self).mask@
            }),
    {
        if fragment_number >= self.fragment_count {
            return false;
        }
        let word: usize = fragment_number as usize / 64;
        let bit: u64 = fragment_number as u64 % 64;
        if self.mask[word] & (1u64 << bit) != 0 {
            // Duplicate.
            return false;
        }
        let total: usize = self.buf.len();
        let end: usize = match offset.checked_add(data.len()) {
            Some(e) => e,
            None => return false,
        };
        if end > total {
            // Data past the declared length: not counted, so that the
            // fragment can still be received correctly.
            return false;
        }
        let ghost before = *self;
        let w: u64 = self.mask[word];
        self.mask.set(word, w | (1u64 << bit));
        proof {
            assert(before@.got.insert(fragment_number as int).subset_of(
                vstd::set_lib::set_int_range(0, self.fragment_count as int),
            ));
            lemma_bounded(before@.got, self.fragment_count as int);
            lemma_bounded(
                before@.got.insert(fragment_number as int),
                self.fragment_count as int,
            );
        }
        self.received = self.received + 1;
        let mut i: usize = 0;
        while i < data.len()
            invariant
                i <= data@.len(),
                end == offset + data@.len(),
                end <= self.buf@.len(),
                self.buf@ == overwrite(before.buf@, offset as int, data@.take(i as int)),
                before.buf@.len() == self.buf@.len(),
                self.mask@ == before.mask@.update(word as int, w | (1u64 << bit)),
                self.received == before.received + 1,
                self.fragment_count == before.fragment_count,
            decreases data@.len() - i,
        {
            self.buf.set(offset + i, data[i]);
            i += 1;
            assert(self.buf@ =~= overwrite(before.buf@, offset as int, data@.take(i as int)));
        }
        assert(data@.take(i as int) =~= data@);
        assert(self@.got =~= before@.got.insert(fragment_number as int)) by {
            assert forall|k: int| 0 <= k < self.fragment_count implies mask_bit(self.mask@, k) == (k
                == fragment_number || mask_bit(before.mask@, k)) by {
                lemma_set_bit(w, bit, (k % 64) as u64);
            }
        }
        self.received == self.fragment_count
    }

    /// The reassembled bytes.
    pub fn finish(self) -> (r: Bytes)
        ensures
            buffer::content(r) == self@.buf,
    {
        buffer::from_vec(self.buf)
    }
}

/// How many fragments of at most `size` bytes a message of `len` bytes takes.
pub open spec fn piece_count(len: int, size: int) -> int {
    (len + size - 1) / size
}

/// Where fragment `i` of a message of `len` bytes ends.
pub open spec fn piece_end(len: int, size: int, i: int) -> int {
    if i * size + size <= len {
        i * size + size
    } else {
        len
    }
}

/// The bytes of fragment `i`.
pub open spec fn piece(data: Seq<u8>, size: int, i: int) -> Seq<u8> {
    data.subrange(i * size, piece_end(data.len() as int, size, i))
}

/// Each fragment is a nonempty part of the message.
pub proof fn lemma_piece_bounds(len: int, size: int, i: int)
    requires
        0 < size,
        0 <= len,
        0 <= i < piece_count(len, size),
    ensures
        0 <= i * size < piece_end(len, size, i) <= len,
        piece_end(len, size, i) - i * size <= size,
{
    let n = piece_count(len, size);
    assert(i * size < len) by (nonlinear_arith)
        requires
            0 < size,
            0 <= i,
            i < n,
            n == (len + size - 1) / size,
    ;
    assert(0 <= i * size) by (nonlinear_arith)
        requires
            0 <= i,
            0 < size,
    ;
}

/// Fragments do not overlap.
proof fn lemma_pieces_apart(size: int, i: int, j: int)
    requires
        0 < size,
        i < j,
    ensures
        i * size + size <= j * size,
{
    assert(i * size + size <= j * size) by (nonlinear_arith)
        requires
            0 < size,
            i < j,
    ;
}

/// Each byte of a message is in a fragment.
proof fn lemma_piece_of(len: int, size: int, k: int)
    requires
        0 < size,
        0 <= k < len,
    ensures
        0 <= k / size < piece_count(len, size),
        (k / size) * size <= k < piece_end(len, size, k / size),
{
    let i = k / size;
    let n = piece_count(len, size);
    assert(0 <= i && i * size <= k && k < i * size + size && i < n) by (nonlinear_arith)
        requires
            0 < size,
            0 <= k,
            k < len,
            i == k / size,
            n == (len + size - 1) / size,
    ;
}

/// A reassembly of `data` in which every fragment that came is in its place.
pub open spec fn reassembles(r: ReassemblyView, data: Seq<u8>, size: int) -> bool {
    &&& r.fragment_count == piece_count(data.len() as int, size)
    &&& r.buf.len() == data.len()
    &&& r.wf()
    &&& forall|i: int, k: int|
        #![trigger r.got.contains(i), r.buf[k]]
        r.got.contains(i) && i * size <= k < piece_end(data.len() as int, size, i) ==> r.buf[k]
            == data[k]
}

/// A fragment of the message keeps the reassembly right.
pub proof fn lemma_piece_received(r: ReassemblyView, data: Seq<u8>, size: int, i: int)
    requires
        0 < size,
        reassembles(r, data, size),
        0 <= i < r.fragment_count,
    ensures
        reassembles(r.receive(i, i * size, piece(data, size, i)), data, size),
        r.receive(i, i * size, piece(data, size, i)).got == r.got.insert(i),
{
    let len = data.len() as int;
    lemma_piece_bounds(len, size, i);
    let d = piece(data, size, i);
    let after = r.receive(i, i * size, d);
    if r.got.contains(i) {
        assert(r.got.insert(i) =~= r.got);
    } else {
        assert forall|j: int, k: int|
            #![trigger after.got.contains(j), after.buf[k]]
            after.got.contains(j) && j * size <= k < piece_end(len, size, j) implies after.buf[k]
            == data[k] by {
            lemma_piece_bounds(len, size, j);
            if i < j {
                lemma_pieces_apart(size, i, j);
            } else if j < i {
                lemma_pieces_apart(size, j, i);
            }
            if j != i {
                assert(r.got.contains(j));
                assert(after.buf[k] == r.buf[k]);
            }
        }
    }
}

/// Nothing is wrong in a reassembly to which nothing came.
pub proof fn lemma_fresh_reassembles(data: Seq<u8>, size: int)
    requires
        0 < size,
        0 <= piece_count(data.len() as int, size) <= u32::MAX,
    ensures
        reassembles(
            ReassemblyView::fresh(
                data.len() as int,
                piece_count(data.len() as int, size) as u32,
            ),
            data,
            size,
        ),
{
}

/// A complete reassembly has every fragment, and is the message.
pub proof fn lemma_complete(r: ReassemblyView, data: Seq<u8>, size: int)
    requires
        0 < size,
        reassembles(r, data, size),
    ensures
        r.complete() <==> (forall|i: int|
            0 <= i < r.fragment_count ==> #[trigger] r.got.contains(i)),
        r.complete() ==> r.buf == data,
{
    let n = r.fragment_count as int;
    let all = vstd::set_lib::set_int_range(0, n);
    lemma_bounded(r.got, n);
    vstd::set_lib::lemma_int_range(0, n);
    if r.complete() {
        vstd::set_lib::lemma_subset_equality(r.got, all);
        assert forall|k: int| 0 <= k < data.len() implies r.buf[k] == data[k] by {
            lemma_piece_of(data.len() as int, size, k);
            assert(r.got.contains(k / size));
        }
        assert(r.buf =~= data);
    } else if forall|i: int| 0 <= i < n ==> #[trigger] r.got.contains(i) {
        assert(r.got =~= all);
    }
}

/// The reassembly after fragments of `data` arrived in the given order.
pub open spec fn arrivals(data: Seq<u8>, size: int, order: Seq<int>) -> ReassemblyView
    decreases order.len(),
{
    if order.len() == 0 {
        ReassemblyView::fresh(data.len() as int, piece_count(data.len() as int, size) as u32)
    } else {
        let i = order.last();
        arrivals(data, size, order.drop_last()).receive(i, i * size, piece(data, size, i))
    }
}

/// Law: fragments may arrive in any order, and more than once. The message
/// is complete exactly when each of them came, and then it is the message
/// that was cut.
pub proof fn lemma_reassembly(data: Seq<u8>, size: int, order: Seq<int>)
    requires
        0 < size,
        piece_count(data.len() as int, size) <= u32::MAX,
        forall|j: int|
            0 <= j < order.len() ==> 0 <= #[trigger] order[j] < piece_count(
                data.len() as int,
                size,
            ),
    ensures
        arrivals(data, size, order).got == order.to_set(),
        arrivals(data, size, order).complete() <==> (forall|i: int|
            0 <= i < piece_count(data.len() as int, size) ==> #[trigger] order.contains(i)),
        arrivals(data, size, order).complete() ==> arrivals(data, size, order).buf == data,
{
    let n = piece_count(data.len() as int, size);
    assert(0 <= n) by (nonlinear_arith)
        requires
            n == (data.len() + size - 1) / size,
            0 < size,
    ;
    lemma_arrivals(data, size, order);
    let r = arrivals(data, size, order);
    lemma_complete(r, data, size);
    if r.complete() {
        assert forall|i: int| 0 <= i < n implies #[trigger] order.contains(i) by {
            assert(r.got.contains(i));
        }
    } else if forall|i: int| 0 <= i < n ==> #[trigger] order.contains(i) {
        assert forall|i: int| 0 <= i < n implies #[trigger] r.got.contains(i) by {
            assert(order.contains(i));
        }
    }
}

proof fn lemma_arrivals(data: Seq<u8>, size: int, order: Seq<int>)
    requires
        0 < size,
        0 <= piece_count(data.len() as int, size) <= u32::MAX,
        forall|j: int|
            0 <= j < order.len() ==> 0 <= #[trigger] order[j] < piece_count(
                data.len() as int,
                size,
            ),
    ensures
        reassembles(arrivals(data, size, order), data, size),
        arrivals(data, size, order).got == order.to_set(),
    decreases order.len(),
{
    if order.len() == 0 {
        assert(order.to_set() =~= Set::empty());
    } else {
        let front = order.drop_last();
        lemma_arrivals(data, size, front);
        lemma_piece_received(arrivals(data, size, front), data, size, order.last());
        assert(order =~= front.push(order.last()));
        assert(order.to_set() =~= front.to_set().insert(order.last())) by {
            assert forall|i: int| order.contains(i) implies front.contains(i) || i
                == order.last() by {
                let j = choose|j: int| 0 <= j < order.len() && order[j] == i;
                if j < front.len() {
                    assert(front[j] == i);
                }
            }
            assert forall|i: int| front.contains(i) || i == order.last() implies order.contains(
                i,
            ) by {
                if front.contains(i) {
                    let j = choose|j: int| 0 <= j < front.len() && front[j] == i;
                    assert(order[j] == i);
                } else {
                    assert(order[order.len() - 1] == i);
                }
            }
        }
    }
}

} // verus!
