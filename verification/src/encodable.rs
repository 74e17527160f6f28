use vstd::prelude::*;

verus! {

/// A value that can be stored as a fixed array of bytes.
///
/// Implementors state their byte image with `encoding`; `encode_size` and
/// `encode` must agree with it.
pub trait Encodable {
    /// The bytes that `encode` writes for this value.
    spec fn encoding(&self) -> Seq<u8>;

    /// The number of bytes needed to encode the value.
    fn encode_size(&self) -> (size: usize)
        ensures
            size == self.encoding().len(),
    ;

    /// Writes the encoding of the value into `buffer`, whose length must be
    /// the one returned by `encode_size`.
    fn encode(&self, buffer: &mut [u8])
        requires
            old(buffer)@.len() == self.encoding().len(),
        ensures
            final(buffer)@ == self.encoding(),
    ;
}

/// Little-endian bytes of `value`, `count` bytes long.
pub open spec fn le_bytes(value: nat, count: nat) -> Seq<u8>
    decreases count,
{
    if count == 0 {
        Seq::empty()
    } else {
        seq![(value % 256) as u8] + le_bytes(value / 256, (count - 1) as nat)
    }
}

/// The little-endian image of a value has exactly `count` bytes.
pub proof fn lemma_le_bytes_len(value: nat, count: nat)
    ensures
        le_bytes(value, count).len() == count,
    decreases count,
{
    if count > 0 {
        lemma_le_bytes_len(value / 256, (count - 1) as nat);
    }
}

/// Writes the `count` low bytes of `value`, least significant first.
fn write_le(value: u64, count: usize, buffer: &mut [u8])
    requires
        old(buffer)@.len() == count,
        count <= 8,
    ensures
        final(buffer)@ == le_bytes(value as nat, count as nat),
{
    let mut rest: u64 = value;
    let mut i: usize = 0;
    while i < count
        invariant
            buffer@.len() == count,
            i <= count,
            forall|j: int| 0 <= j < i ==> buffer@[j] == le_bytes(value as nat, count as nat)[j],
            le_bytes(value as nat, count as nat) == buffer@.subrange(0, i as int) + le_bytes(
                rest as nat,
                (count - i) as nat,
            ),
        decreases count - i,
    {
        let ghost prefix = buffer@.subrange(0, i as int);
        let byte: u8 = (rest % 256) as u8;
        buffer[i] = byte;
        proof {
            assert(le_bytes(rest as nat, (count - i) as nat) == seq![(rest % 256) as u8]
                + le_bytes((rest / 256) as nat, (count - i - 1) as nat));
            assert(buffer@.subrange(0, i + 1) =~= prefix.push(byte));
            assert(prefix.push(byte) + le_bytes((rest / 256) as nat, (count - i - 1) as nat)
                =~= prefix + (seq![byte] + le_bytes((rest / 256) as nat, (count - i - 1) as nat)));
        }
        rest = rest / 256;
        i = i + 1;
    }
    proof {
        assert(buffer@.subrange(0, count as int) =~= buffer@);
        assert(le_bytes(rest as nat, 0) =~= Seq::<u8>::empty());
        assert(buffer@ + Seq::<u8>::empty() =~= buffer@);
    }
}

impl Encodable for u8 {
    open spec fn encoding(&self) -> Seq<u8> {
        seq![*self]
    }

    fn encode_size(&self) -> (size: usize) {
        1
    }

    fn encode(&self, buffer: &mut [u8]) {
        buffer[0] = *self;
        assert(buffer@ =~= seq![*self]);
    }
}

impl Encodable for u16 {
    open spec fn encoding(&self) -> Seq<u8> {
        le_bytes(*self as nat, 2)
    }

    fn encode_size(&self) -> (size: usize) {
        proof {
            lemma_le_bytes_len(*self as nat, 2);
        }
        2
    }

    fn encode(&self, buffer: &mut [u8]) {
        proof {
            lemma_le_bytes_len(*self as nat, 2);
        }
        write_le(*self as u64, 2, buffer);
    }
}

impl Encodable for u32 {
    open spec fn encoding(&self) -> Seq<u8> {
        le_bytes(*self as nat, 4)
    }

    fn encode_size(&self) -> (size: usize) {
        proof {
            lemma_le_bytes_len(*self as nat, 4);
        }
        4
    }

    fn encode(&self, buffer: &mut [u8]) {
        proof {
            lemma_le_bytes_len(*self as nat, 4);
        }
        write_le(*self as u64, 4, buffer);
    }
}

impl Encodable for u64 {
    open spec fn encoding(&self) -> Seq<u8> {
        le_bytes(*self as nat, 8)
    }

    fn encode_size(&self) -> (size: usize) {
        proof {
            lemma_le_bytes_len(*self as nat, 8);
        }
        8
    }

    fn encode(&self, buffer: &mut [u8]) {
        proof {
            lemma_le_bytes_len(*self as nat, 8);
        }
        write_le(*self, 8, buffer);
    }
}

} // verus!
