//! Reading a memory range in bounded chunks.

use crate::error::Error;
use vstd::prelude::*;

verus! {

/// Reading and writing the memory of a process.
pub trait MemExt {
    /// `bytes` were, at some moment, the contents of the memory at `addr`.
    /// Each implementation says what its memory held; the library reasons
    /// only through this name.
    closed spec fn holds(&self, addr: int, bytes: Seq<u8>) -> bool {
        true
    }

    /// Reading `size` bytes at `addr` can fail.
    closed spec fn refuses(&self, addr: int, size: int) -> bool {
        true
    }

    /// Reads `size` bytes at `addr`: on success, bytes that the memory there
    /// held; a failure is one that a read of that range can give.
    fn read(&self, addr: usize, size: usize) -> (r: Result<Vec<u8>, Error>)
        ensures
            r matches Ok(v) ==> v@.len() == size && self.holds(addr as int, v@),
            r is Err ==> self.refuses(addr as int, size as int),
    ;

    /// Writes `payload` at `addr`, returning the number of bytes written.
    fn write(&self, addr: usize, payload: &[u8]) -> (r: Result<usize, Error>);
}

/// `num` ranges of `size` bytes from `start` on, followed by one range of
/// `last` bytes when `last` is not zero; each range is `(address, length)`.
pub open spec fn chunk_ranges(start: int, size: int, num: nat, last: int) -> Seq<(int, int)> {
    Seq::new(num, |k: int| (start + k * size, size)) + if last != 0 {
        seq![(start + num * size, last)]
    } else {
        seq![]
    }
}

/// The ranges in which `[start, end)` is read with chunks of at most `size`
/// bytes: whole chunks and a shorter remainder when the range is longer than
/// `size`, one chunk of the whole range otherwise.
pub open spec fn chunk_plan(start: int, end: int, size: int) -> Seq<(int, int)> {
    let len = end - start;
    if size < len {
        chunk_ranges(start, size, (len / size) as nat, len % size)
    } else {
        chunk_ranges(start, len, 1, 0)
    }
}

/// The chunks of `chunk_plan` tile `[start, end)`: the first begins at
/// `start`, each ends where the next begins, the last ends at `end`, and none
/// is longer than `size` or than the range.
pub proof fn lemma_chunk_plan_tiles(start: int, end: int, size: int)
    requires
        start <= end,
        size >= 0,
        size > 0 || start == end,
    ensures
        ({
            let p = chunk_plan(start, end, size);
            &&& p.len() >= 1
            &&& p[0].0 == start
            &&& forall|k: int| 0 <= k < p.len() - 1 ==> #[trigger] p[k].0 + p[k].1 == p[k + 1].0
            &&& p.last().0 + p.last().1 == end
            &&& forall|k: int| 0 <= k < p.len() ==> 0 <= #[trigger] p[k].1 && p[k].1 <= size && p[k].1 <= end - start
        }),
{
    let len = end - start;
    let p = chunk_plan(start, end, size);
    if size < len {
        let num = len / size;
        let last = len % size;
        vstd::arithmetic::div_mod::lemma_fundamental_div_mod(len, size);
        assert(num >= 1) by (nonlinear_arith)
            requires
                size < len,
                size > 0,
                num == len / size,
        ;
        assert(0 <= last < size) by (nonlinear_arith)
            requires
                size > 0,
                last == len % size,
        ;
        assert forall|k: int| 0 <= k < p.len() - 1 implies #[trigger] p[k].0 + p[k].1 == p[k
            + 1].0 by {
            assert((k + 1) * size == k * size + size) by (nonlinear_arith);
        }
        if last == 0 {
            assert(p.last().0 + p.last().1 == start + (num - 1) * size + size);
            assert((num - 1) * size + size == size * num) by (nonlinear_arith);
        } else {
            assert(p.last().0 + p.last().1 == start + num * size + last);
            assert(num * size == size * num) by (nonlinear_arith);
        }
        assert(size <= len);
    } else {
    }
}

/// Reads `[start, end)` of a memory in chunks, one chunk per `next` call.
#[derive(Debug)]
pub struct Chunks<'a, T: MemExt> {
    mem: &'a T,
    start: usize,
    size: usize,
    num: usize,
    last: usize,
}

impl<'a, T> Chunks<'a, T> where T: MemExt {
    #[verifier::type_invariant]
    closed spec fn inv(&self) -> bool {
        self.start + self.num * self.size + self.last <= usize::MAX
    }

    /// The ranges still to be read, in order, as `(address, length)`.
    pub closed spec fn pending(&self) -> Seq<(int, int)> {
        chunk_ranges(self.start as int, self.size as int, self.num as nat, self.last as int)
    }

    /// The memory being read.
    pub closed spec fn spec_mem(&self) -> &'a T {
        self.mem
    }

    /// Plans the reading of `[start, end)` in chunks of `size` bytes.
    pub fn from(mem: &'a T, start: usize, end: usize, size: usize) -> (r: Self)
        requires
            start <= end,
            size > 0 || start == end,
        ensures
            r.pending() == chunk_plan(start as int, end as int, size as int),
            r.spec_mem() == mem,
    {
        let mut size = size;
        let mut last: usize = 0;
        let mut num: usize = 1;
        if size < end - start {
            num = (end - start) / size;
            last = (end - start) % size;
            proof {
                let len = end - start;
                vstd::arithmetic::div_mod::lemma_fundamental_div_mod(len as int, size as int);
                assert(num * size == size * num) by (nonlinear_arith);
                assert(start + num * size + last == end);
            }
        } else {
            size = end - start;
            assert(start + num * size + last == end);
        }
        Chunks { mem, start, size, num, last }
    }

    /// Reads the next range still to be read. A successful read removes it
    /// from the pending ranges; a failed one leaves them as they were.
    pub fn next(&mut self) -> (r: Option<Result<Vec<u8>, Error>>)
        ensures
            final(self).spec_mem() == old(self).spec_mem(),
            old(self).pending().len() == 0 ==> r is None && final(self).pending() == old(
                self,
            ).pending(),
            old(self).pending().len() > 0 ==> (r matches Some(res) && match res {
                Ok(v) => v@.len() == old(self).pending()[0].1 && old(self).spec_mem().holds(
                    old(self).pending()[0].0,
                    v@,
                ) && final(self).pending() == old(self).pending().drop_first(),
                Err(_) => old(self).spec_mem().refuses(
                    old(self).pending()[0].0,
                    old(self).pending()[0].1,
                ) && final(self).pending() == old(self).pending(),
            }),
    {
        proof {
            use_type_invariant(&*self);
        }
        let ghost p0 = self.pending();
        if self.num != 0 {
            proof {
                assert(self.num * self.size >= self.size) by (nonlinear_arith)
                    requires
                        self.num >= 1,
                ;
            }
            match self.mem.read(self.start, self.size) {
                Ok(chunk) => {
                    let ghost (s, z, n, l) = (
                        self.start as int,
                        self.size as int,
                        self.num as int,
                        self.last as int,
                    );
                    proof {
                        assert(s + z + (n - 1) * z == s + n * z) by (nonlinear_arith);
                        assert((n - 1) * z + z == n * z) by (nonlinear_arith);
                    }
                    *self = Chunks {
                        mem: self.mem,
                        start: self.start + self.size,
                        size: self.size,
                        num: self.num - 1,
                        last: self.last,
                    };
                    proof {
                        let p1 = self.pending();
                        assert forall|k: int| 0 <= k < p1.len() implies #[trigger] p1[k] == p0.drop_first()[k] by {
                            assert(s + z + k * z == s + (k + 1) * z) by (nonlinear_arith);
                        }
                        assert(p1 =~= p0.drop_first());
                    }
                    return Some(Ok(chunk));
                },
                Err(err) => {
                    return Some(Err(err));
                },
            };
        }
        if self.last != 0 {
            proof {
                assert(p0[0] == (self.start as int, self.last as int));
            }
            match self.mem.read(self.start, self.last) {
                Ok(chunk) => {
                    self.last = 0;
                    proof {
                        assert(self.pending() =~= p0.drop_first());
                    }
                    return Some(Ok(chunk));
                },
                Err(err) => {
                    return Some(Err(err));
                },
            };
        }
        None
    }
}

} // verus!
