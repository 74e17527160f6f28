use crate::encodable::Encodable;
use vstd::prelude::*;

verus! {

/// Where a field of a tuple is in the buffer.
pub struct TupleEntryInfo {
    buffer_index: usize,
    size: usize,
}

/// A tuple whose fields are only known at run time, stored one after the
/// other in a single buffer of bytes.
pub struct RuntimeTuple {
    entry_infos: Vec<TupleEntryInfo>,
    buffer: Vec<u8>,
}

impl View for RuntimeTuple {
    type V = Seq<Seq<u8>>;

    /// The encoded fields, in order.
    closed spec fn view(&self) -> Seq<Seq<u8>> {
        Seq::new(
            self.entry_infos@.len(),
            |i: int|
                self.buffer@.subrange(
                    self.entry_infos@[i].buffer_index as int,
                    self.entry_infos@[i].buffer_index + self.entry_infos@[i].size,
                ),
        )
    }
}

/// A read access to the bytes of a field.
pub struct RuntimeTupleReader<'s> {
    pub buffer: &'s [u8],
}

/// A write access to the bytes of a field.
pub struct RuntimeTupleWriter<'s> {
    pub buffer: &'s mut [u8],
}

impl RuntimeTuple {
    /// Every field lies inside the buffer.
    pub closed spec fn wf(&self) -> bool {
        forall|i: int|
            0 <= i < self.entry_infos@.len() ==> (#[trigger] self.entry_infos@[i]).buffer_index
                + self.entry_infos@[i].size <= self.buffer@.len()
    }

    /// Returns a RuntimeTuple
    pub fn new<T: Encodable>(fields: &[T]) -> (res: RuntimeTuple)
        ensures
            res.wf(),
            res.apart(),
            res@.len() == fields@.len(),
            forall|i: int| 0 <= i < fields@.len() ==> #[trigger] res@[i] == fields@[i].encoding(),
    {
        let mut entry_infos: Vec<TupleEntryInfo> = Vec::new();
        let mut buffer: Vec<u8> = Vec::new();
        let n = fields.len();
        let mut k: usize = 0;
        while k < n
            invariant
                n == fields@.len(),
                k <= n,
                entry_infos@.len() == k,
                forall|i: int|
                    0 <= i < k ==> (#[trigger] entry_infos@[i]).buffer_index + entry_infos@[i].size
                        <= buffer@.len(),
                forall|i: int, j: int|
                    0 <= i < j < k ==> #[trigger] entry_infos@[i].buffer_index + entry_infos@[i].size
                        <= #[trigger] entry_infos@[j].buffer_index,
                forall|i: int|
                    0 <= i < k ==> buffer@.subrange(
                        (#[trigger] entry_infos@[i]).buffer_index as int,
                        entry_infos@[i].buffer_index + entry_infos@[i].size,
                    ) == fields@[i].encoding(),
            decreases n - k,
        {
            let field = &fields[k];
            let size = field.encode_size();
            let mut encoded: Vec<u8> = vec![0u8; size];
            field.encode(encoded.as_mut_slice());
            let ghost before = buffer@;
            let buffer_index = buffer.len();
            entry_infos.push(TupleEntryInfo { buffer_index, size });
            buffer.append(&mut encoded);
            proof {
                assert forall|i: int| 0 <= i < k + 1 implies buffer@.subrange(
                    (#[trigger] entry_infos@[i]).buffer_index as int,
                    entry_infos@[i].buffer_index + entry_infos@[i].size,
                ) == fields@[i].encoding() by {
                    if i < k {
                        assert(buffer@.subrange(
                            entry_infos@[i].buffer_index as int,
                            entry_infos@[i].buffer_index + entry_infos@[i].size,
                        ) =~= before.subrange(
                            entry_infos@[i].buffer_index as int,
                            entry_infos@[i].buffer_index + entry_infos@[i].size,
                        ));
                    } else {
                        assert(buffer@.subrange(buffer_index as int, buffer_index + size)
                            =~= fields@[k as int].encoding());
                    }
                }
            }
            k = k + 1;
        }
        let res = RuntimeTuple { entry_infos, buffer };
        assert forall|i: int| 0 <= i < fields@.len() implies #[trigger] res@[i]
            == fields@[i].encoding() by {
            assert(res.entry_infos@[i] == res.entry_infos@[i]);
        }
        res
    }

    /// Get an entry from the collection
    ///
    /// # Arguments
    /// * `index` - The entry index
    ///
    pub fn get(&self, index: usize) -> (res: Option<RuntimeTupleReader<'_>>)
        requires
            self.wf(),
        ensures
            index < self@.len() ==> (res matches Some(reader) && reader.buffer@ == self@[index as int]),
            index >= self@.len() ==> res is None,
    {
        if index >= self.entry_infos.len() {
            return None;
        }
        let entry_info = &self.entry_infos[index];
        let total = self.buffer.len();
        assert(entry_info.buffer_index + entry_info.size <= total);
        let start = entry_info.buffer_index;
        let end = entry_info.buffer_index + entry_info.size;
        let entry_buffer = vstd::slice::slice_subrange(self.buffer.as_slice(), start, end);
        Some(RuntimeTupleReader { buffer: entry_buffer })
    }

    /// `self` is `old_tuple` where the bytes of field `index` were
    /// replaced by `bytes`, in place.
    pub closed spec fn spliced(&self, old_tuple: RuntimeTuple, index: int, bytes: Seq<u8>) -> bool {
        &&& 0 <= index < old_tuple.entry_infos@.len()
        &&& self.entry_infos@ =~= old_tuple.entry_infos@
        &&& self.buffer@ =~= old_tuple.buffer@.subrange(
            0,
            old_tuple.entry_infos@[index].buffer_index as int,
        ) + bytes + old_tuple.buffer@.subrange(
            old_tuple.entry_infos@[index].buffer_index + old_tuple.entry_infos@[index].size,
            old_tuple.buffer@.len() as int,
        )
    }

    /// Writing over the bytes of a field that lies apart from the others,
    /// keeping their number, changes that field alone.
    pub proof fn lemma_splice(old_tuple: RuntimeTuple, new_tuple: RuntimeTuple, index: int, bytes: Seq<u8>)
        requires
            old_tuple.wf(),
            new_tuple.spliced(old_tuple, index, bytes),
            bytes.len() == old_tuple@[index].len(),
            old_tuple.apart(),
        ensures
            new_tuple.wf(),
            new_tuple@ == old_tuple@.update(index, bytes),
    {
        let infos = old_tuple.entry_infos@;
        let start = infos[index].buffer_index as int;
        let end = start + infos[index].size;
        assert(new_tuple.buffer@.len() == old_tuple.buffer@.len());
        assert forall|j: int| 0 <= j < infos.len() implies #[trigger] new_tuple@[j]
            == old_tuple@.update(index, bytes)[j] by {
            let s = infos[j].buffer_index as int;
            let e = s + infos[j].size;
            if j != index {
                assert(e <= start || end <= s);
                assert(new_tuple.buffer@.subrange(s, e) =~= old_tuple.buffer@.subrange(s, e));
            } else {
                assert(new_tuple.buffer@.subrange(s, e) =~= bytes);
            }
        }
        assert(new_tuple@ =~= old_tuple@.update(index, bytes));
    }

    /// The fields do not overlap.
    pub closed spec fn apart(&self) -> bool {
        forall|i: int, j: int|
            0 <= i < j < self.entry_infos@.len() ==> #[trigger] self.entry_infos@[i].buffer_index
                + self.entry_infos@[i].size <= #[trigger] self.entry_infos@[j].buffer_index
    }

    /// Get an entry from the collection with mutability: its bytes, to
    /// write in place; the field keeps its place and its size
    ///
    /// # Arguments
    /// * `index` - The entry index
    ///
    pub fn get_mut(&mut self, index: usize) -> (res: Option<RuntimeTupleWriter<'_>>)
        requires
            old(self).wf(),
        ensures
            res is Some <==> index < old(self)@.len(),
            res matches Some(writer) ==> writer.buffer@ == old(self)@[index as int]
                && final(self).spliced(*old(self), index as int, final(writer.buffer)@),
            res is None ==> final(self)@ == old(self)@ && final(self).wf(),
    {
        if index >= self.entry_infos.len() {
            return None;
        }
        let start = self.entry_infos[index].buffer_index;
        let size = self.entry_infos[index].size;
        let total = self.buffer.len();
        assert(start + size <= total);
        let buffer = self.buffer.as_mut_slice();
        let (head, rest) = buffer.split_at_mut(start);
        let (bytes, tail) = rest.split_at_mut(size);
        proof {
            assert(bytes@ =~= old(self)@[index as int]);
            assert(head@ =~= old(self).buffer@.subrange(0, start as int));
            assert(tail@ =~= old(self).buffer@.subrange(start + size, old(self).buffer@.len() as int));
        }
        assert(has_resolved(head));
        assert(has_resolved(tail));
        Some(RuntimeTupleWriter { buffer: bytes })
    }

    /// Iterate over the entries of the collection
    pub fn iter(&self) -> (it: Iter<'_>)
        ensures
            it.tuple == self,
            it.current_index == 0,
    {
        Iter { tuple: self, current_index: 0 }
    }

    /// Return the entry count stored in the collection
    pub fn len(&self) -> (n: usize)
        ensures
            n == self@.len(),
    {
        self.entry_infos.len()
    }
}

/// Iterator over entries of a RuntimeTuple
pub struct Iter<'s> {
    pub tuple: &'s RuntimeTuple,
    pub current_index: usize,
}

impl<'s> Iter<'s> {
    /// Returns the entry under the cursor and moves to the next one; `None`
    /// once every entry was seen.
    pub fn next(&mut self) -> (res: Option<RuntimeTupleReader<'s>>)
        requires
            old(self).tuple.wf(),
        ensures
            final(self).tuple == old(self).tuple,
            old(self).current_index < old(self).tuple@.len() ==> (res matches Some(reader)
                && reader.buffer@ == old(self).tuple@[old(self).current_index as int] && final(self).current_index == old(self).current_index + 1),
            old(self).current_index >= old(self).tuple@.len() ==> res is None && final(self).current_index == old(self).current_index,
    {
        if self.current_index >= self.tuple.len() {
            return None;
        }
        let result = self.tuple.get(self.current_index);
        self.current_index = self.current_index + 1;
        result
    }
}

} // verus!
