use crate::encodable::Encodable;
use vstd::prelude::*;

verus! {

/// Where an entry lies in the shared byte buffer: `[buffer_start, buffer_end)`.
struct EncodableVecEntryInfo {
    buffer_start: usize,
    buffer_end: usize,
}

/// A collection that stores encoded objects one after the other in a single
/// byte buffer, so that iterating over them walks contiguous memory.
pub struct EncodableVec {
    entry_infos: Vec<EncodableVecEntryInfo>,
    buffer: Vec<u8>,
}

/// The number of bytes of all entries put together.
pub open spec fn total_len(entries: Seq<Seq<u8>>) -> nat
    decreases entries.len(),
{
    if entries.len() == 0 {
        0
    } else {
        total_len(entries.drop_last()) + entries.last().len()
    }
}

/// The pieces of `bytes` of the given lengths, one after the other.
pub open spec fn split_bytes(bytes: Seq<u8>, lengths: Seq<int>) -> Seq<Seq<u8>>
    decreases lengths.len(),
{
    if lengths.len() == 0 {
        Seq::empty()
    } else {
        seq![bytes.take(lengths[0])] + split_bytes(bytes.skip(lengths[0]), lengths.drop_first())
    }
}

/// The length of each entry.
pub open spec fn entry_lengths(entries: Seq<Seq<u8>>) -> Seq<int> {
    entries.map_values(|e: Seq<u8>| e.len() as int)
}

/// The lengths added up.
pub open spec fn sum_lengths(lengths: Seq<int>) -> int
    decreases lengths.len(),
{
    if lengths.len() == 0 {
        0
    } else {
        lengths[0] + sum_lengths(lengths.drop_first())
    }
}

impl View for EncodableVec {
    type V = Seq<Seq<u8>>;

    /// The encodings of the stored entries, in order.
    closed spec fn view(&self) -> Seq<Seq<u8>> {
        Seq::new(
            self.entry_infos@.len(),
            |i: int|
                self.buffer@.subrange(
                    self.entry_infos@[i].buffer_start as int,
                    self.entry_infos@[i].buffer_end as int,
                ),
        )
    }
}

impl EncodableVec {
    /// The entries tile the buffer: each starts where the previous one ends,
    /// the first at 0 and the last ends at the end of the buffer.
    pub closed spec fn wf(&self) -> bool {
        let infos = self.entry_infos@;
        &&& forall|i: int|
            0 <= i < infos.len() ==> #[trigger] infos[i].buffer_start <= infos[i].buffer_end
        &&& forall|i: int|
            0 < i < infos.len() ==> #[trigger] infos[i].buffer_start == infos[i - 1].buffer_end
        &&& infos.len() == 0 ==> self.buffer@.len() == 0
        &&& infos.len() > 0 ==> infos[0].buffer_start == 0 && infos.last().buffer_end
            == self.buffer@.len()
    }

    /// The size of the byte buffer.
    pub closed spec fn byte_len(&self) -> nat {
        self.buffer@.len()
    }

    proof fn lemma_ends_monotonic(&self, i: int, j: int)
        requires
            self.wf(),
            0 <= i <= j < self.entry_infos@.len(),
        ensures
            self.entry_infos@[i].buffer_end <= self.entry_infos@[j].buffer_end,
            self.entry_infos@[i].buffer_start <= self.entry_infos@[j].buffer_start,
        decreases j - i,
    {
        if i < j {
            self.lemma_ends_monotonic(i, j - 1);
            assert(self.entry_infos@[j].buffer_start == self.entry_infos@[j - 1].buffer_end);
        }
    }

    /// Each entry ends where the entries before it and itself add up.
    proof fn lemma_end_is_total(&self, i: int)
        requires
            self.wf(),
            0 <= i < self.entry_infos@.len(),
        ensures
            self.entry_infos@[i].buffer_end == total_len(self@.take(i + 1)),
        decreases i,
    {
        let v = self@;
        let infos = self.entry_infos@;
        self.lemma_ends_monotonic(i, infos.len() - 1);
        if i > 0 {
            assert(infos[i].buffer_start == infos[i - 1].buffer_end);
        }
        assert(v[i].len() == infos[i].buffer_end - infos[i].buffer_start);
        assert(v.take(i + 1).drop_last() =~= v.take(i));
        assert(v.take(i + 1).last() == v[i]);
        assert(total_len(v.take(i + 1)) == total_len(v.take(i)) + v[i].len());
        if i > 0 {
            self.lemma_end_is_total(i - 1);
        } else {
            assert(v.take(0) =~= Seq::<Seq<u8>>::empty());
        }
    }

    /// The buffer holds exactly as many bytes as the entries put together.
    pub proof fn lemma_byte_len(&self)
        requires
            self.wf(),
        ensures
            self.byte_len() == total_len(self@),
    {
        if self.entry_infos@.len() > 0 {
            let n = self.entry_infos@.len() as int;
            self.lemma_end_is_total(n - 1);
            assert(self@.take(n) =~= self@);
        }
    }

    /// Returns an empty EncodableVec.
    pub fn new() -> (res: EncodableVec)
        ensures
            res.wf(),
            res@ == Seq::<Seq<u8>>::empty(),
    {
        let res = EncodableVec { entry_infos: Vec::new(), buffer: Vec::new() };
        assert(res@ =~= Seq::<Seq<u8>>::empty());
        res
    }

    /// Returns the encoding of the entry at `index`, or `None` past the end.
    pub fn get(&self, index: usize) -> (res: Option<&[u8]>)
        requires
            self.wf(),
        ensures
            index < self@.len() ==> (res matches Some(bytes) && bytes@ == self@[index as int]),
            index >= self@.len() ==> res is None,
    {
        if index >= self.entry_infos.len() {
            return None;
        }
        let start = self.entry_infos[index].buffer_start;
        let end = self.entry_infos[index].buffer_end;
        proof {
            self.lemma_ends_monotonic(index as int, self.entry_infos@.len() - 1);
        }
        Some(vstd::slice::slice_subrange(self.buffer.as_slice(), start, end))
    }

    /// Returns the bytes of the entry at `index` for writing in place, or
    /// `None` past the end. The entry keeps its place and its size; the
    /// other entries do not change.
    pub fn get_mut(&mut self, index: usize) -> (res: Option<&mut [u8]>)
        requires
            old(self).wf(),
        ensures
            res is Some <==> index < old(self)@.len(),
            res matches Some(bytes) ==> bytes@ == old(self)@[index as int],
            res matches Some(bytes) ==> final(self).spliced(
                *old(self),
                index as int,
                final(bytes)@,
            ),
            res is None ==> final(self)@ == old(self)@ && final(self).wf(),
    {
        if index >= self.entry_infos.len() {
            return None;
        }
        let start = self.entry_infos[index].buffer_start;
        let end = self.entry_infos[index].buffer_end;
        proof {
            self.lemma_ends_monotonic(index as int, self.entry_infos@.len() - 1);
        }
        let buffer = self.buffer.as_mut_slice();
        let (head, rest) = buffer.split_at_mut(start);
        let (bytes, tail) = rest.split_at_mut(end - start);
        proof {
            assert(bytes@ =~= old(self)@[index as int]);
            assert(head@ =~= old(self).buffer@.subrange(0, start as int));
            assert(tail@ =~= old(self).buffer@.subrange(end as int, old(self).buffer@.len() as int));
        }
        assert(has_resolved(head));
        assert(has_resolved(tail));
        Some(bytes)
    }

    /// `self` is `old_vec` where the bytes of entry `index` were replaced
    /// by `bytes`, in place.
    pub closed spec fn spliced(&self, old_vec: EncodableVec, index: int, bytes: Seq<u8>) -> bool {
        &&& 0 <= index < old_vec.entry_infos@.len()
        &&& self.entry_infos@ =~= old_vec.entry_infos@
        &&& self.buffer@ =~= old_vec.buffer@.subrange(
            0,
            old_vec.entry_infos@[index].buffer_start as int,
        ) + bytes + old_vec.buffer@.subrange(
            old_vec.entry_infos@[index].buffer_end as int,
            old_vec.buffer@.len() as int,
        )
    }

    /// Writing over the bytes of one entry, keeping their number, changes
    /// that entry alone.
    pub proof fn lemma_splice(old_vec: EncodableVec, new_vec: EncodableVec, index: int, bytes: Seq<u8>)
        requires
            old_vec.wf(),
            new_vec.spliced(old_vec, index, bytes),
            bytes.len() == old_vec@[index].len(),
        ensures
            new_vec.wf(),
            new_vec@ == old_vec@.update(index, bytes),
    {
        let infos = old_vec.entry_infos@;
        let start = infos[index].buffer_start as int;
        let end = infos[index].buffer_end as int;
        old_vec.lemma_ends_monotonic(index, infos.len() - 1);
        old_vec.lemma_ends_monotonic(0, index);
        assert(new_vec.buffer@.len() == old_vec.buffer@.len());
        assert forall|j: int| 0 <= j < infos.len() implies #[trigger] new_vec@[j] == old_vec@.update(
            index,
            bytes,
        )[j] by {
            let s = infos[j].buffer_start as int;
            let e = infos[j].buffer_end as int;
            old_vec.lemma_ends_monotonic(j, infos.len() - 1);
            if j < index {
                old_vec.lemma_ends_monotonic(j, index - 1);
                assert(infos[index].buffer_start == infos[index - 1].buffer_end);
                assert(new_vec.buffer@.subrange(s, e) =~= old_vec.buffer@.subrange(s, e));
            } else if j > index {
                old_vec.lemma_ends_monotonic(index + 1, j);
                assert(infos[index + 1].buffer_start == infos[index].buffer_end);
                assert(new_vec.buffer@.subrange(s, e) =~= old_vec.buffer@.subrange(s, e));
            } else {
                assert(new_vec.buffer@.subrange(s, e) =~= bytes);
            }
        }
        assert(new_vec@ =~= old_vec@.update(index, bytes));
    }

    /// Replaces the entry at `index` by the encoding of `new_object`, which
    /// must have the same size: entries are changed in place and never move.
    /// Returns false, and changes nothing, when there is no such entry or the
    /// sizes differ.
    pub fn replace<T: Encodable>(&mut self, index: usize, new_object: &T) -> (done: bool)
        requires
            old(self).wf(),
        ensures
            final(self).wf(),
            done == (index < old(self)@.len() && new_object.encoding().len()
                == old(self)@[index as int].len()),
            done ==> final(self)@ == old(self)@.update(index as int, new_object.encoding()),
            !done ==> final(self)@ == old(self)@,
            final(self).byte_len() == old(self).byte_len(),
    {
        if index >= self.entry_infos.len() {
            return false;
        }
        let start = self.entry_infos[index].buffer_start;
        let end = self.entry_infos[index].buffer_end;
        proof {
            self.lemma_ends_monotonic(index as int, self.entry_infos@.len() - 1);
        }
        let size = new_object.encode_size();
        if size != end - start {
            return false;
        }
        let mut encoded: Vec<u8> = vec![0u8; size];
        new_object.encode(encoded.as_mut_slice());
        let ghost old_buffer = self.buffer@;
        let mut k: usize = 0;
        while k < size
            invariant
                k <= size,
                size == end - start,
                size == new_object.encoding().len(),
                self.entry_infos@ == old(self).entry_infos@,
                start <= end <= old_buffer.len(),
                encoded@ == new_object.encoding(),
                self.buffer@.len() == old_buffer.len(),
                forall|j: int|
                    0 <= j < old_buffer.len() ==> #[trigger] self.buffer@[j] == if start <= j
                        < start + k {
                        encoded@[j - start]
                    } else {
                        old_buffer[j]
                    },
            decreases size - k,
        {
            self.buffer.set(start + k, encoded[k]);
            k = k + 1;
        }
        proof {
            let infos = self.entry_infos@;
            assert forall|i: int| 0 <= i < infos.len() implies #[trigger] self@[i] == old(
                self,
            )@.update(index as int, new_object.encoding())[i] by {
                if i < index {
                    old(self).lemma_ends_monotonic(i + 1, index as int);
                    assert(self@[i] =~= old(self)@[i]);
                } else if i > index {
                    old(self).lemma_ends_monotonic(index + 1, i);
                    old(self).lemma_ends_monotonic(i, infos.len() - 1);
                    assert(self@[i] =~= old(self)@[i]);
                } else {
                    assert(self@[i] =~= new_object.encoding());
                }
            }
            assert(self@ =~= old(self)@.update(index as int, new_object.encoding()));
        }
        true
    }

    /// Returns the entry count stored in the collection.
    pub fn len(&self) -> (n: usize)
        ensures
            n == self@.len(),
    {
        self.entry_infos.len()
    }

    /// Appends the encoding of `new_object` after the last entry.
    pub fn push<T: Encodable>(&mut self, new_object: T)
        requires
            old(self).wf(),
            total_len(old(self)@) + new_object.encoding().len() <= usize::MAX,
        ensures
            final(self).wf(),
            final(self)@ == old(self)@.push(new_object.encoding()),
    {
        proof {
            self.lemma_byte_len();
        }
        let encode_size = new_object.encode_size();
        let object_buffer_start = self.buffer.len();
        let object_buffer_end = self.buffer.len() + encode_size;
        self.entry_infos.push(
            EncodableVecEntryInfo {
                buffer_start: object_buffer_start,
                buffer_end: object_buffer_end,
            },
        );
        let mut object_buffer: Vec<u8> = vec![0u8; encode_size];
        new_object.encode(object_buffer.as_mut_slice());
        let ghost old_buffer = self.buffer@;
        self.buffer.append(&mut object_buffer);
        proof {
            let infos = self.entry_infos@;
            let n = infos.len() - 1;
            assert forall|i: int| 0 <= i < n implies #[trigger] self@[i] == old(self)@[i] by {
                old(self).lemma_ends_monotonic(i, n - 1);
                assert(self.buffer@.subrange(
                    infos[i].buffer_start as int,
                    infos[i].buffer_end as int,
                ) =~= old_buffer.subrange(infos[i].buffer_start as int, infos[i].buffer_end as int));
            }
            assert(self@[n] =~= new_object.encoding());
            assert(self@ =~= old(self)@.push(new_object.encoding()));
        }
    }

    /// Removes the entry at `index`; the following entries move down to fill
    /// the freed bytes.
    #[verifier::rlimit(60)]
    #[verifier::spinoff_prover]
    pub fn remove(&mut self, index: usize)
        requires
            old(self).wf(),
            index < old(self)@.len(),
        ensures
            final(self).wf(),
            final(self)@ == old(self)@.remove(index as int),
    {
        let ghost old_infos = self.entry_infos@;
        let ghost old_buffer = self.buffer@;
        let ghost n = old_infos.len() as int;
        let ghost rem = old_infos.remove(index as int);
        proof {
            self.lemma_ends_monotonic(index as int, n - 1);
            old_infos.remove_ensures(index as int);
            assert forall|j: int| 0 <= j < n implies old_infos[j].buffer_start
                <= #[trigger] old_infos[j].buffer_end && old_infos[j].buffer_end
                <= old_buffer.len() by {
                self.lemma_ends_monotonic(j, n - 1);
            }
            assert forall|j: int| index < j < n implies old_infos[index as int].buffer_end
                <= #[trigger] old_infos[j].buffer_start by {
                self.lemma_ends_monotonic(index + 1, j);
            }
            assert forall|j: int| 0 <= j < index implies #[trigger] old_infos[j].buffer_end
                <= old_infos[index as int].buffer_start by {
                self.lemma_ends_monotonic(j + 1, index as int);
            }
        }
        let object_info = self.entry_infos.remove(index);
        let start_index = object_info.buffer_start;
        let end_index = object_info.buffer_end;
        let size = end_index - start_index;

        // Drop the bytes of the removed entry.
        let mut tail = self.buffer.split_off(end_index);
        self.buffer.truncate(start_index);
        self.buffer.append(&mut tail);
        assert(self.buffer@ =~= old_buffer.subrange(0, start_index as int) + old_buffer.subrange(
            end_index as int,
            old_buffer.len() as int,
        ));

        // Move every following entry down by the size of the removed one.
        let count = self.entry_infos.len();
        let mut i: usize = 0;
        while i < count
            invariant
                i <= count,
                count == self.entry_infos@.len(),
                count == n - 1,
                0 <= index < n,
                rem == old_infos.remove(index as int),
                start_index == old_infos[index as int].buffer_start,
                end_index == old_infos[index as int].buffer_end,
                size == end_index - start_index,
                start_index <= end_index,
                end_index <= old_buffer.len(),
                self.buffer@ == old_buffer.subrange(0, start_index as int) + old_buffer.subrange(
                    end_index as int,
                    old_buffer.len() as int,
                ),
                forall|j: int| 0 <= j < count ==> #[trigger] rem[j] == if j < index {
                    old_infos[j]
                } else {
                    old_infos[j + 1]
                },
                forall|j: int|
                    0 <= j < n ==> old_infos[j].buffer_end <= old_buffer.len(),
                forall|j: int|
                    0 <= j < n ==> old_infos[j].buffer_start <= #[trigger] old_infos[j].buffer_end,
                forall|j: int|
                    index < j < n ==> end_index <= #[trigger] old_infos[j].buffer_start,
                forall|j: int| 0 <= j < index ==> #[trigger] old_infos[j].buffer_end <= start_index,
                forall|j: int|
                    0 <= j < count ==> #[trigger] self.entry_infos@[j] == (if j < i
                        && rem[j].buffer_start > start_index {
                        EncodableVecEntryInfo {
                            buffer_start: (rem[j].buffer_start - size) as usize,
                            buffer_end: (rem[j].buffer_end - size) as usize,
                        }
                    } else {
                        rem[j]
                    }),
            decreases count - i,
        {
            let info = &self.entry_infos[i];
            if info.buffer_start > start_index {
                proof {
                    if i < index {
                        assert(old_infos[i as int].buffer_start <= old_infos[i as int].buffer_end);
                    } else {
                        assert(rem[i as int] == old_infos[i + 1]);
                    }
                }
                let new_info = EncodableVecEntryInfo {
                    buffer_start: info.buffer_start - size,
                    buffer_end: info.buffer_end - size,
                };
                self.entry_infos.set(i, new_info);
            }
            i = i + 1;
        }
        proof {
            let infos = self.entry_infos@;
            // Entries before the removed one keep their place, later ones move down.
            assert forall|j: int| 0 <= j < count implies #[trigger] infos[j] == (if j < index {
                rem[j]
            } else {
                EncodableVecEntryInfo {
                    buffer_start: (rem[j].buffer_start - size) as usize,
                    buffer_end: (rem[j].buffer_end - size) as usize,
                }
            }) by {
                if j < index {
                    assert(old_infos[j].buffer_start <= old_infos[j].buffer_end);
                } else {
                    assert(rem[j] == old_infos[j + 1]);
                    if size > 0 {
                        assert(rem[j].buffer_start > start_index);
                    }
                }
            }
            Self::lemma_remove_result(old(self), self, index as int);
        }
    }

    /// After the bytes of entry `index` are cut out of the buffer and the
    /// later entries moved down by its size, the collection is well formed
    /// and holds the other entries in order.
    proof fn lemma_remove_result(old_vec: &EncodableVec, new_vec: &EncodableVec, index: int)
        requires
            old_vec.wf(),
            0 <= index < old_vec.entry_infos@.len(),
            new_vec.entry_infos@.len() == old_vec.entry_infos@.len() - 1,
            new_vec.buffer@ == old_vec.buffer@.subrange(
                0,
                old_vec.entry_infos@[index].buffer_start as int,
            ) + old_vec.buffer@.subrange(
                old_vec.entry_infos@[index].buffer_end as int,
                old_vec.buffer@.len() as int,
            ),
            forall|j: int|
                0 <= j < new_vec.entry_infos@.len() ==> #[trigger] new_vec.entry_infos@[j] == (if j
                    < index {
                    old_vec.entry_infos@[j]
                } else {
                    EncodableVecEntryInfo {
                        buffer_start: (old_vec.entry_infos@[j + 1].buffer_start - (
                        old_vec.entry_infos@[index].buffer_end
                            - old_vec.entry_infos@[index].buffer_start)) as usize,
                        buffer_end: (old_vec.entry_infos@[j + 1].buffer_end - (
                        old_vec.entry_infos@[index].buffer_end
                            - old_vec.entry_infos@[index].buffer_start)) as usize,
                    }
                }),
        ensures
            new_vec.wf(),
            new_vec@ == old_vec@.remove(index),
    {
        let old_infos = old_vec.entry_infos@;
        let infos = new_vec.entry_infos@;
        let n = old_infos.len() as int;
        let count = infos.len() as int;
        let start_index = old_infos[index].buffer_start;
        let end_index = old_infos[index].buffer_end;
        let old_buffer = old_vec.buffer@;
        old_vec.lemma_ends_monotonic(index, n - 1);
        assert forall|j: int| 0 <= j < count implies #[trigger] new_vec@[j] == old_vec@.remove(
            index,
        )[j] by {
            if j < index {
                old_vec.lemma_ends_monotonic(j + 1, index);
                assert(new_vec.buffer@.subrange(
                    infos[j].buffer_start as int,
                    infos[j].buffer_end as int,
                ) =~= old_buffer.subrange(
                    old_infos[j].buffer_start as int,
                    old_infos[j].buffer_end as int,
                ));
            } else {
                old_vec.lemma_ends_monotonic(index + 1, j + 1);
                old_vec.lemma_ends_monotonic(j + 1, n - 1);
                assert(new_vec.buffer@.subrange(
                    infos[j].buffer_start as int,
                    infos[j].buffer_end as int,
                ) =~= old_buffer.subrange(
                    old_infos[j + 1].buffer_start as int,
                    old_infos[j + 1].buffer_end as int,
                ));
            }
        }
        assert(new_vec@ =~= old_vec@.remove(index));
        assert forall|j: int| 0 < j < count implies #[trigger] infos[j].buffer_start == infos[j
            - 1].buffer_end by {
            if j == index {
                assert(old_infos[j + 1].buffer_start == old_infos[j].buffer_end);
                assert(old_infos[j].buffer_start == old_infos[j - 1].buffer_end);
            } else if j > index {
                assert(old_infos[j + 1].buffer_start == old_infos[j].buffer_end);
            }
        }
        assert forall|j: int| 0 <= j < count implies #[trigger] infos[j].buffer_start
            <= infos[j].buffer_end by {
            if j >= index {
                old_vec.lemma_ends_monotonic(index + 1, j + 1);
            }
        }
        if count > 0 {
            if index == 0 {
                assert(old_infos[1].buffer_start == old_infos[0].buffer_end);
            }
        }
    }

    /// Removes the entries whose index lies in `range`.
    pub fn drain(&mut self, range: core::ops::Range<usize>)
        requires
            old(self).wf(),
            range.start < range.end ==> range.end <= old(self)@.len(),
        ensures
            final(self).wf(),
            range.start < range.end ==> final(self)@ == old(self)@.subrange(0, range.start as int)
                + old(self)@.subrange(range.end as int, old(self)@.len() as int),
            range.start >= range.end ==> final(self)@ == old(self)@,
    {
        let start = range.start;
        let end = range.end;
        if start >= end {
            assert(self@ =~= old(self)@);
            return;
        }
        assert(self@ =~= old(self)@.subrange(0, start as int) + old(self)@.subrange(
            start as int,
            old(self)@.len() as int,
        ));
        let mut k: usize = start;
        while k < end
            invariant
                self.wf(),
                start <= k <= end,
                end <= old(self)@.len(),
                self@ == old(self)@.subrange(0, start as int) + old(self)@.subrange(
                    k as int,
                    old(self)@.len() as int,
                ),
            decreases end - k,
        {
            let ghost before = self@;
            self.remove(start);
            assert(self@ =~= old(self)@.subrange(0, start as int) + old(self)@.subrange(
                k + 1,
                old(self)@.len() as int,
            ));
            k = k + 1;
        }
    }

    /// Returns a cursor over the entries, from the first to the last.
    /// Where entry `k` starts, the end of the buffer for `k` past the last.
    closed spec fn start_of(&self, k: int) -> int {
        if k < self.entry_infos@.len() {
            self.entry_infos@[k].buffer_start as int
        } else {
            self.buffer@.len() as int
        }
    }

    /// From entry `k` on, the buffer splits into the entries, and holds
    /// as many bytes as their lengths add up to.
    proof fn lemma_split_from(&self, k: int)
        requires
            self.wf(),
            0 <= k <= self.entry_infos@.len(),
        ensures
            split_bytes(self.buffer@.skip(self.start_of(k)), entry_lengths(self@).skip(k))
                == self@.skip(k),
            sum_lengths(entry_lengths(self@).skip(k)) == self.buffer@.len() - self.start_of(k),
        decreases self.entry_infos@.len() - k,
    {
        let n = self.entry_infos@.len() as int;
        let v = self@;
        let lengths = entry_lengths(v);
        if k == n {
            assert(lengths.skip(k) =~= Seq::<int>::empty());
            assert(v.skip(k) =~= Seq::<Seq<u8>>::empty());
        } else {
            self.lemma_split_from(k + 1);
            self.lemma_ends_monotonic(k, n - 1);
            let infos = self.entry_infos@;
            let start = infos[k].buffer_start as int;
            let end = infos[k].buffer_end as int;
            assert(self.start_of(k + 1) == end) by {
                if k + 1 < n {
                    assert(infos[k + 1].buffer_start == infos[k].buffer_end);
                }
            }
            assert(lengths.skip(k).drop_first() =~= lengths.skip(k + 1));
            assert(lengths.skip(k)[0] == end - start);
            let bytes = self.buffer@.skip(start);
            assert(bytes.take(end - start) =~= v[k]);
            assert(bytes.skip(end - start) =~= self.buffer@.skip(end));
            assert(v.skip(k) =~= seq![v[k]] + v.skip(k + 1));
        }
    }

    /// The byte buffer has been written over as a whole with `bytes`, the
    /// entries keeping their places.
    pub closed spec fn refilled(&self, old_vec: EncodableVec, bytes: Seq<u8>) -> bool {
        &&& self.entry_infos@ =~= old_vec.entry_infos@
        &&& self.buffer@ =~= bytes
    }

    /// Writing over the whole buffer, keeping its size, gives the entries
    /// that the new bytes hold at the places of the old ones.
    pub proof fn lemma_refilled(old_vec: EncodableVec, new_vec: EncodableVec, bytes: Seq<u8>)
        requires
            old_vec.wf(),
            new_vec.refilled(old_vec, bytes),
            bytes.len() == total_len(old_vec@),
        ensures
            new_vec.wf(),
            new_vec@ == split_bytes(bytes, entry_lengths(old_vec@)),
    {
        old_vec.lemma_byte_len();
        assert(new_vec.wf());
        new_vec.lemma_split_from(0);
        assert(new_vec.start_of(0) == 0) by {
            if new_vec.entry_infos@.len() > 0 {
                assert(new_vec.entry_infos@[0].buffer_start == 0);
            }
        }
        assert(bytes.skip(0) =~= bytes);
        assert forall|k: int| 0 <= k < old_vec@.len() implies #[trigger] new_vec@[k].len()
            == old_vec@[k].len() by {
            old_vec.lemma_ends_monotonic(k, old_vec.entry_infos@.len() - 1);
        }
        assert(entry_lengths(new_vec@) =~= entry_lengths(old_vec@));
        assert(entry_lengths(new_vec@).skip(0) =~= entry_lengths(new_vec@));
        assert(new_vec@.skip(0) =~= new_vec@);
    }

    /// Hands out, one after the other, the bytes of each entry for writing.
    pub fn iter_mut(&mut self) -> (it: IterMut<'_>)
        requires
            old(self).wf(),
        ensures
            it.wf(),
            it.current_index == 0,
            it.remaining() == old(self)@,
            final(self).refilled(*old(self), final(it.rest)@),
    {
        let ghost v = self@;
        proof {
            self.lemma_split_from(0);
            self.lemma_byte_len();
        }
        let n = self.entry_infos.len();
        let mut lengths: Vec<usize> = Vec::new();
        let mut i: usize = 0;
        while i < n
            invariant
                n == self.entry_infos@.len(),
                self.wf(),
                v == self@,
                i <= n,
                lengths@.len() == i,
                forall|k: int| 0 <= k < i ==> #[trigger] lengths@[k] as int == entry_lengths(v)[k],
            decreases n - i,
        {
            proof {
                self.lemma_ends_monotonic(i as int, n - 1);
            }
            let info = &self.entry_infos[i];
            lengths.push(info.buffer_end - info.buffer_start);
            i = i + 1;
        }
        let ghost start = self.start_of(0);
        proof {
            assert(start == 0) by {
                if n > 0 {
                    assert(self.entry_infos@[0].buffer_start == 0);
                }
            }
            assert(self.buffer@.skip(0) =~= self.buffer@);
            assert(lengths@.skip(0).map_values(|l: usize| l as int) =~= entry_lengths(v).skip(0));
            assert(v.skip(0) =~= v);
        }
        let rest = self.buffer.as_mut_slice();
        IterMut { rest, lengths, current_index: 0 }
    }

    pub fn iter(&self) -> (it: Iter<'_>)
        ensures
            it.vec == self,
            it.current_index == 0,
    {
        Iter { vec: self, current_index: 0 }
    }
}

/// A cursor over the entries of an [`EncodableVec`].
pub struct Iter<'s> {
    pub vec: &'s EncodableVec,
    pub current_index: usize,
}

impl<'s> Iter<'s> {
    /// Returns the entry under the cursor and moves to the next one; `None`
    /// once every entry was seen.
    pub fn next(&mut self) -> (res: Option<&'s [u8]>)
        requires
            old(self).vec.wf(),
        ensures
            final(self).vec == old(self).vec,
            old(self).current_index < old(self).vec@.len() ==> (res matches Some(bytes) && bytes@
                == old(self).vec@[old(self).current_index as int] && final(self).current_index
                == old(self).current_index + 1),
            old(self).current_index >= old(self).vec@.len() ==> res is None
                && final(self).current_index == old(self).current_index,
            iter_step(
                old(self).vec@,
                old(self).current_index as int,
                entry_view(res),
                final(self).current_index as int,
            ),
    {
        if self.current_index >= self.vec.len() {
            return None;
        }
        let result = self.vec.get(self.current_index);
        self.current_index = self.current_index + 1;
        result
    }
}


/// A cursor over the entries of an [`EncodableVec`] that hands out the
/// bytes of each entry for writing; what is written there lands in the
/// collection.
pub struct IterMut<'s> {
    /// The bytes of the entries not handed out yet.
    pub rest: &'s mut [u8],
    /// The length of each entry of the collection.
    pub lengths: Vec<usize>,
    /// The number of entries handed out so far.
    pub current_index: usize,
}

impl<'s> IterMut<'s> {
    /// The lengths of the entries not handed out yet.
    pub closed spec fn lengths_left(&self) -> Seq<int> {
        self.lengths@.skip(self.current_index as int).map_values(|l: usize| l as int)
    }

    /// The entries not handed out yet.
    pub open spec fn remaining(&self) -> Seq<Seq<u8>> {
        split_bytes(self.rest@, self.lengths_left())
    }

    /// The bytes left are those of the entries left.
    pub closed spec fn wf(&self) -> bool {
        &&& self.current_index <= self.lengths@.len()
        &&& sum_lengths(self.lengths_left()) == self.rest@.len()
    }

    /// Returns the bytes of the next entry for writing and moves past it;
    /// `None` once every entry was handed out.
    pub fn next(&mut self) -> (res: Option<&'s mut [u8]>)
        requires
            old(self).wf(),
        ensures
            final(self).wf(),
            old(self).remaining().len() == 0 ==> res is None && *final(self) == *old(self)
                && old(self).rest@.len() == 0,
            old(self).remaining().len() > 0 ==> (res matches Some(bytes) && bytes@ == old(
                self,
            ).remaining()[0] && final(self).remaining() == old(self).remaining().drop_first()
                && final(self).current_index == old(self).current_index + 1 && final(old(self).rest)@
                == final(bytes)@ + final(final(self).rest)@),
    {
        if self.current_index >= self.lengths.len() {
            proof {
                assert(self.lengths_left() =~= Seq::<int>::empty());
            }
            return None;
        }
        let ghost left = self.lengths_left();
        let size = self.lengths[self.current_index];
        proof {
            assert(left[0] == size as int);
            assert(left.drop_first() =~= self.lengths@.skip(self.current_index + 1).map_values(
                |l: usize| l as int,
            ));
            assert(sum_lengths(left) == size + sum_lengths(left.drop_first()));
            assert(sum_lengths(left.drop_first()) >= 0) by {
                lemma_sum_lengths_nonneg(left.drop_first(), self.lengths@.skip(self.current_index + 1));
            }
        }
        let mut taken: &'s mut [u8] = &mut [];
        std::mem::swap(&mut taken, &mut self.rest);
        let ghost whole = taken@;
        let (head, tail) = taken.split_at_mut(size);
        proof {
            assert(whole.take(size as int) =~= head@);
            assert(whole.skip(size as int) =~= tail@);
        }
        self.rest = tail;
        self.current_index = self.current_index + 1;
        Some(head)
    }
}

/// Lengths that come from sizes add up to no less than zero.
proof fn lemma_sum_lengths_nonneg(lengths: Seq<int>, sizes: Seq<usize>)
    requires
        lengths == sizes.map_values(|l: usize| l as int),
    ensures
        sum_lengths(lengths) >= 0,
    decreases lengths.len(),
{
    if lengths.len() > 0 {
        assert(lengths.drop_first() =~= sizes.drop_first().map_values(|l: usize| l as int));
        lemma_sum_lengths_nonneg(lengths.drop_first(), sizes.drop_first());
    }
}

/// Reading the entry just pushed gives back the encoding pushed, and
/// removing it gives back the entries there were before.
pub proof fn lemma_push_then_remove(entries: Seq<Seq<u8>>, bytes: Seq<u8>)
    ensures
        entries.push(bytes)[entries.len() as int] == bytes,
        entries.push(bytes).remove(entries.len() as int) == entries,
{
    assert(entries.push(bytes).remove(entries.len() as int) =~= entries);
}

/// An entry handed out, as its bytes.
pub open spec fn entry_view(res: Option<&[u8]>) -> Option<Seq<u8>> {
    match res {
        Some(bytes) => Some(bytes@),
        None => None,
    }
}

/// One call of `next` on a cursor at `before` over `entries`: the entry
/// there, the cursor moving on, or `None` past the end, the cursor staying.
pub open spec fn iter_step(entries: Seq<Seq<u8>>, before: int, res: Option<Seq<u8>>, after: int) -> bool {
    if 0 <= before < entries.len() {
        res == Some(entries[before]) && after == before + 1
    } else {
        res is None && after == before
    }
}

/// Where the cursor stands after `k` calls from the start.
proof fn lemma_cursor_after_calls(
    entries: Seq<Seq<u8>>,
    cursors: Seq<int>,
    results: Seq<Option<Seq<u8>>>,
    k: int,
)
    requires
        cursors.len() == results.len() + 1,
        cursors[0] == 0,
        forall|i: int|
            0 <= i < results.len() ==> iter_step(entries, cursors[i], #[trigger] results[i], cursors[i + 1]),
        0 <= k < cursors.len(),
    ensures
        cursors[k] == if k < entries.len() { k } else { entries.len() as int },
    decreases k,
{
    if k > 0 {
        lemma_cursor_after_calls(entries, cursors, results, k - 1);
        assert(iter_step(entries, cursors[k - 1], results[k - 1], cursors[k]));
    }
}

/// Walking an iterator from its start, the `k`-th call of `next` gives the
/// `k`-th entry while there is one, and `None` from then on: `results` are
/// what the calls gave and `cursors` where the cursor stood before each
/// call and after the last.
pub proof fn lemma_iter_walk(entries: Seq<Seq<u8>>, cursors: Seq<int>, results: Seq<Option<Seq<u8>>>)
    requires
        cursors.len() == results.len() + 1,
        cursors[0] == 0,
        forall|i: int|
            0 <= i < results.len() ==> iter_step(entries, cursors[i], #[trigger] results[i], cursors[i + 1]),
    ensures
        forall|k: int|
            0 <= k < results.len() ==> #[trigger] results[k] == if k < entries.len() {
                Some(entries[k])
            } else {
                None
            },
{
    assert forall|k: int| 0 <= k < results.len() implies #[trigger] results[k] == if k < entries.len() {
        Some(entries[k])
    } else {
        None
    } by {
        lemma_cursor_after_calls(entries, cursors, results, k);
        assert(iter_step(entries, cursors[k], results[k], cursors[k + 1]));
    }
}

} // verus!
