//! A contiguous buffer viewed either as one vector or as a row of chunks,
//! with helpers that decide the chunk geometry.

use vstd::prelude::*;

verus! {

/// A buffer that is either one vector or a row of chunks holding the same
/// elements in order.
#[derive(Debug)]
pub enum ChunkableVector<T> {
    Single(Vec<T>),
    Multiple(Vec<Vec<T>>),
}

/// One independently ownable chunk of a split buffer.
pub struct VectorChunk<T>(pub Vec<T>);

/// The concatenation of a row of chunks, in order.
pub open spec fn concat_seqs<T>(s: Seq<Seq<T>>) -> Seq<T>
    decreases s.len(),
{
    if s.len() == 0 {
        Seq::empty()
    } else {
        concat_seqs(s.drop_last()) + s.last()
    }
}

/// The elements a chunkable buffer holds, in order.
pub open spec fn chunkable_view<T>(c: ChunkableVector<T>) -> Seq<T> {
    match c {
        ChunkableVector::Single(v) => v@,
        ChunkableVector::Multiple(vs) => concat_seqs(vs@.map_values(|v: Vec<T>| v@)),
    }
}

/// The chunk size that divides a buffer into the wanted number of chunks:
/// one element per chunk when there are at most as many elements as chunks,
/// otherwise the rounded-up quotient.
pub fn get_chunk_size(num_elements: usize, num_chunks: usize) -> (r: usize)
    requires
        num_elements > num_chunks ==> num_chunks > 0,
    ensures
        r == if num_elements <= num_chunks {
            1int
        } else if num_elements % num_chunks == 0 {
            num_elements as int / num_chunks as int
        } else {
            num_elements as int / num_chunks as int + 1
        },
{
    let chunk_size = if num_elements <= num_chunks {
        1
    } else {
        if num_elements % num_chunks == 0 {
            num_elements / num_chunks
        } else {
            proof {
                vstd::arithmetic::div_mod::lemma_div_decreases(
                    num_elements as int,
                    num_chunks as int,
                );
            }
            num_elements / num_chunks + 1
        }
    };
    chunk_size
}

/// The consecutive index ranges of the chunks: full ranges of the chunk
/// size, then one final range to the end.
pub fn get_ranges(num_elements: usize, chunk_size: usize) -> (r: Vec<std::ops::Range<usize>>)
    requires
        num_elements > chunk_size ==> chunk_size > 0,
    ensures
        r@.len() >= 1,
        r@[0].start == 0,
        r@[r@.len() - 1].end == num_elements,
        forall|i: int| 0 <= i < r@.len() ==> (#[trigger] r@[i]).start <= r@[i].end,
        forall|i: int| 0 <= i < r@.len() - 1 ==> (#[trigger] r@[i]).end == r@[i + 1].start,
        forall|i: int| 0 <= i < r@.len() - 1 ==> (#[trigger] r@[i]).end - r@[i].start
            == chunk_size,
        r@[r@.len() - 1].end - r@[r@.len() - 1].start <= if num_elements <= chunk_size {
            num_elements as int
        } else {
            chunk_size as int
        },
{
    if num_elements <= chunk_size {
        let range = std::ops::Range { start: 0usize, end: num_elements };
        let mut result: Vec<std::ops::Range<usize>> = Vec::new();
        result.push(range);
        return result;
    }
    let mut result: Vec<std::ops::Range<usize>> = Vec::new();
    let mut start: usize = 0;
    loop
        invariant
            chunk_size > 0,
            start < num_elements,
            result@.len() >= 1 ==> result@[0].start == 0,
            result@.len() == 0 ==> start == 0,
            result@.len() >= 1 ==> result@[result@.len() - 1].end == start,
            forall|i: int| 0 <= i < result@.len()
                ==> (#[trigger] result@[i]).start <= result@[i].end,
            forall|i: int| 0 <= i < result@.len() - 1
                ==> (#[trigger] result@[i]).end == result@[i + 1].start,
            forall|i: int| 0 <= i < result@.len()
                ==> (#[trigger] result@[i]).end - result@[i].start == chunk_size,
        decreases num_elements - start,
    {
        if num_elements - start <= chunk_size {
            let range = std::ops::Range { start, end: num_elements };
            result.push(range);
            return result;
        } else {
            let range = std::ops::Range { start, end: start + chunk_size };
            result.push(range);
            start += chunk_size;
        }
    }
}

impl<T> ChunkableVector<T> {
    /// Wraps a vector as a single contiguous buffer.
    pub fn new(elements: Vec<T>) -> (r: ChunkableVector<T>)
        ensures
            r == ChunkableVector::Single(elements),
            chunkable_view(r) == elements@,
    {
        ChunkableVector::Single(elements)
    }

    /// Splits a single buffer into chunks of the size fitting the wanted
    /// chunk count, keeping every element in order; a buffer no longer than
    /// the chunk count becomes one chunk.
    pub fn split(&mut self, num_chunks: usize)
        requires
            (*old(self) is Single),
            chunkable_view(*old(self)).len() > num_chunks ==> num_chunks > 0,
        ensures
            (*final(self) is Multiple),
            chunkable_view(*final(self)) == chunkable_view(*old(self)),
    {
        let mut taken = ChunkableVector::Multiple(Vec::new());
        core::mem::swap(&mut taken, self);
        let elements = match taken {
            ChunkableVector::Single(elements) => elements,
            ChunkableVector::Multiple(_) => vstd::pervasive::unreached(),
        };
        let ghost orig = elements@;
        let chunk_size = get_chunk_size(elements.len(), num_chunks);
        if chunk_size == 1 && elements.len() <= num_chunks {
            let mut result: Vec<Vec<T>> = Vec::new();
            result.push(elements);
            *self = ChunkableVector::Multiple(result);
            proof {
                let vs = result@.map_values(|v: Vec<T>| v@);
                assert(vs.drop_last() =~= Seq::<Seq<T>>::empty());
                assert(concat_seqs(vs.drop_last()) =~= Seq::<T>::empty());
                assert(vs.last() =~= orig);
                assert(concat_seqs(vs) =~= orig);
                assert(chunkable_view(*self) =~= orig);
            }
            return;
        }
        proof {
            assert(chunk_size > 0) by {
                if !(elements@.len() <= num_chunks) {
                    vstd::arithmetic::div_mod::lemma_div_non_zero(
                        elements@.len() as int,
                        num_chunks as int,
                    );
                }
            }
        }
        let mut rest = elements;
        let mut result: Vec<Vec<T>> = Vec::new();
        loop
            invariant
                chunk_size > 0,
                orig == chunkable_view(*old(self)),
                concat_seqs(result@.map_values(|v: Vec<T>| v@)) + rest@ =~= orig,
            decreases rest@.len(),
        {
            if rest.len() > chunk_size {
                let ghost vs0 = result@.map_values(|v: Vec<T>| v@);
                let ghost rest0 = rest@;
                let tail = rest.split_off(chunk_size);
                result.push(rest);
                proof {
                    let vs = result@.map_values(|v: Vec<T>| v@);
                    assert(vs.drop_last() =~= vs0);
                    assert(vs.last() =~= rest0.subrange(0, chunk_size as int));
                    assert(concat_seqs(vs) + tail@ =~= orig);
                }
                rest = tail;
            } else {
                let ghost vs0 = result@.map_values(|v: Vec<T>| v@);
                let ghost rest0 = rest@;
                result.push(rest);
                *self = ChunkableVector::Multiple(result);
                proof {
                    let vs = result@.map_values(|v: Vec<T>| v@);
                    assert(vs.drop_last() =~= vs0);
                    assert(vs.last() =~= rest0);
                    assert(concat_seqs(vs) =~= orig);
                    assert(chunkable_view(*self) =~= orig);
                }
                return;
            }
        }
    }

    /// Rejoins a row of chunks into one vector holding every element in
    /// order.
    pub fn merge(&mut self)
        requires
            (*old(self) is Multiple),
        ensures
            (*final(self) is Single),
            chunkable_view(*final(self)) == chunkable_view(*old(self)),
    {
        let ghost orig = chunkable_view(*old(self));
        let mut taken = ChunkableVector::Single(Vec::new());
        core::mem::swap(&mut taken, self);
        let mut chunks = match taken {
            ChunkableVector::Multiple(chunks) => chunks,
            ChunkableVector::Single(_) => vstd::pervasive::unreached(),
        };
        let mut single: Vec<T> = Vec::new();
        proof {
            assert(single@ + concat_seqs(chunks@.map_values(|v: Vec<T>| v@)) =~= orig);
        }
        while chunks.len() > 0
            invariant
                single@ + concat_seqs(chunks@.map_values(|v: Vec<T>| v@)) =~= orig,
            decreases chunks@.len(),
        {
            let ghost cs0 = chunks@.map_values(|v: Vec<T>| v@);
            let mut first = chunks.remove(0);
            proof {
                let cs = chunks@.map_values(|v: Vec<T>| v@);
                lemma_concat_first(cs0);
                assert(cs =~= cs0.drop_first());
            }
            single.append(&mut first);
        }
        proof {
            assert(chunks@.map_values(|v: Vec<T>| v@) =~= Seq::<Seq<T>>::empty());
            assert(single@ =~= orig);
        }
        *self = ChunkableVector::Single(single);
    }

    /// Hands the buffer out as one vector, rejoining chunks first if it was
    /// split.
    pub fn into_single(self) -> (r: Vec<T>)
        ensures
            r@ == chunkable_view(self),
    {
        match self {
            ChunkableVector::Single(elements) => elements,
            ChunkableVector::Multiple(chunks) => {
                let mut this = ChunkableVector::Multiple(chunks);
                this.merge();
                match this {
                    ChunkableVector::Single(elements) => elements,
                    ChunkableVector::Multiple(_) => vstd::pervasive::unreached(),
                }
            },
        }
    }

    /// Hands the chunks out as independently ownable values.
    pub fn into_multiple(self) -> (r: Vec<VectorChunk<T>>)
        requires
            (self is Multiple),
        ensures
            ({
                let cs = self->Multiple_0;
                r@.len() == cs@.len() && forall|i: int| 0 <= i < r@.len() ==> (
                #[trigger] r@[i]).0@ == cs@[i]@
            }),
    {
        match self {
            ChunkableVector::Multiple(chunks) => {
                let ghost cs0 = chunks@;
                let mut chunks = chunks;
                let mut result: Vec<VectorChunk<T>> = Vec::new();
                while chunks.len() > 0
                    invariant
                        result@.len() + chunks@.len() == cs0.len(),
                        forall|i: int| 0 <= i < result@.len()
                            ==> (#[trigger] result@[i]).0@ == cs0[i]@,
                        forall|i: int| 0 <= i < chunks@.len()
                            ==> (#[trigger] chunks@[i])@ == cs0[result@.len() + i]@,
                    decreases chunks@.len(),
                {
                    let c = chunks.remove(0);
                    result.push(VectorChunk(c));
                }
                result
            },
            ChunkableVector::Single(_) => vstd::pervasive::unreached(),
        }
    }
}

impl<T> VectorChunk<T> {
    /// Hands out the chunk's backing vector.
    pub fn into_vec(self) -> (r: Vec<T>)
        ensures
            r@ == self.0@,
    {
        self.0
    }
}

/// Prepending the first row to the concatenation of the rest gives the
/// whole concatenation.
proof fn lemma_concat_first<T>(s: Seq<Seq<T>>)
    requires
        s.len() > 0,
    ensures
        concat_seqs(s) =~= s.first() + concat_seqs(s.drop_first()),
    decreases s.len(),
{
    if s.len() == 1 {
        assert(s.drop_last() =~= Seq::<Seq<T>>::empty());
        assert(s.drop_first() =~= Seq::<Seq<T>>::empty());
        assert(concat_seqs(s) =~= s.first());
    } else {
        lemma_concat_first(s.drop_last());
        assert(s.drop_last().first() =~= s.first());
        assert(s.drop_last().drop_first() =~= s.drop_first().drop_last());
        assert(s.drop_first().last() =~= s.last());
        assert(concat_seqs(s.drop_first()) == concat_seqs(s.drop_first().drop_last())
            + s.drop_first().last());
    }
}

} // verus!
