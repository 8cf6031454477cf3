//! Device abstractions.

use vstd::prelude::*;

use crate::error::FsError;
use crate::fs::BlockId;

verus! {

/// Physical device block identifier.
#[derive(Debug, Clone, Copy, PartialEq, Eq, Hash, Structural)]
pub struct PhysicalBlockId(pub usize);

/// Physical block device I/O.
///
/// This models the underlying storage granularity. Callers provide buffers and
/// all operations may fail.
pub trait PhysicalBlockDevice {
    /// The contents of the blocks. Every method below is stated over these four spec
    /// functions. They have defaults because an implementation outside Verus cannot define a
    /// spec function; such an implementation keeps them, and nothing is then known of it: its
    /// invariant and its reliability count as false, and the library proves nothing of a device
    /// built on it.
    open spec fn phys_blocks(&self) -> Seq<Seq<u8>> {
        Seq::empty()
    }

    /// The size of every block.
    open spec fn phys_block_size(&self) -> nat {
        0
    }

    /// The implementation's own invariant, beside the shape that [`phys_wf`] asks for.
    open spec fn phys_inv(&self) -> bool {
        false
    }

    /// Requests within range, with buffers of the block size, never fail.
    open spec fn phys_reliable(&self) -> bool {
        false
    }

    fn physical_block_size(&self) -> (r: usize)
        requires
            self.phys_inv(),
        ensures
            r == self.phys_block_size(),
    ;

    fn physical_block_count(&self) -> (r: usize)
        requires
            self.phys_inv(),
        ensures
            r == self.phys_blocks().len(),
    ;

    fn read_physical_block(&self, index: PhysicalBlockId, dst: &mut [u8]) -> (r: Result<(), FsError>)
        requires
            self.phys_inv(),
            self.phys_blocks().len() <= usize::MAX,
            forall|i: int|
                0 <= i < self.phys_blocks().len() ==> #[trigger] self.phys_blocks()[i].len()
                    == self.phys_block_size(),
        ensures
            final(dst)@.len() == old(dst)@.len(),
            r is Ok ==> index.0 < self.phys_blocks().len() && old(dst)@.len()
                == self.phys_block_size() && final(dst)@ == self.phys_blocks()[index.0 as int],
            self.phys_reliable() && index.0 < self.phys_blocks().len() && old(dst)@.len()
                == self.phys_block_size() ==> r is Ok,
    ;

    fn write_physical_block(&mut self, index: PhysicalBlockId, src: &[u8]) -> (r: Result<(), FsError>)
        requires
            old(self).phys_inv(),
            old(self).phys_blocks().len() <= usize::MAX,
            forall|i: int|
                0 <= i < old(self).phys_blocks().len() ==> #[trigger] old(self).phys_blocks()[i].len()
                    == old(self).phys_block_size(),
        ensures
            final(self).phys_inv(),
            final(self).phys_blocks().len() <= usize::MAX,
            forall|i: int|
                0 <= i < final(self).phys_blocks().len() ==> #[trigger] final(self).phys_blocks()[i].len()
                    == final(self).phys_block_size(),
            final(self).phys_block_size() == old(self).phys_block_size(),
            final(self).phys_blocks().len() == old(self).phys_blocks().len(),
            final(self).phys_reliable() == old(self).phys_reliable(),
            r is Ok ==> index.0 < old(self).phys_blocks().len() && src@.len()
                == old(self).phys_block_size() && final(self).phys_blocks() == old(self).phys_blocks().update(index.0 as int, src@),
            forall|j: int|
                0 <= j < old(self).phys_blocks().len() && j != index.0 ==> #[trigger] final(self).phys_blocks()[j] == old(self).phys_blocks()[j],
            old(self).phys_reliable() && index.0 < old(self).phys_blocks().len() && src@.len()
                == old(self).phys_block_size() ==> r is Ok,
    ;

    fn zero_physical_block(&mut self, index: PhysicalBlockId) -> (r: Result<(), FsError>)
        requires
            old(self).phys_inv(),
            old(self).phys_blocks().len() <= usize::MAX,
            forall|i: int|
                0 <= i < old(self).phys_blocks().len() ==> #[trigger] old(self).phys_blocks()[i].len()
                    == old(self).phys_block_size(),
        ensures
            final(self).phys_inv(),
            final(self).phys_blocks().len() <= usize::MAX,
            forall|i: int|
                0 <= i < final(self).phys_blocks().len() ==> #[trigger] final(self).phys_blocks()[i].len()
                    == final(self).phys_block_size(),
            final(self).phys_block_size() == old(self).phys_block_size(),
            final(self).phys_blocks().len() == old(self).phys_blocks().len(),
            final(self).phys_reliable() == old(self).phys_reliable(),
            r is Ok ==> index.0 < old(self).phys_blocks().len() && final(self).phys_blocks()
                == old(self).phys_blocks().update(
                index.0 as int,
                Seq::new(old(self).phys_block_size(), |k: int| 0u8),
            ),
            forall|j: int|
                0 <= j < old(self).phys_blocks().len() && j != index.0 ==> #[trigger] final(self).phys_blocks()[j] == old(self).phys_blocks()[j],
            old(self).phys_reliable() && index.0 < old(self).phys_blocks().len() ==> r is Ok,
    {
        let n = self.physical_block_size();
        let zeros = zero_bytes(n);
        self.write_physical_block(index, zeros.as_slice())
    }
}

/// A well-formed physical device: its own invariant holds, and every block
/// holds `phys_block_size` bytes.
pub open spec fn phys_wf<P: PhysicalBlockDevice + ?Sized>(p: &P) -> bool {
    &&& p.phys_inv()
    &&& p.phys_blocks().len() <= usize::MAX
    &&& forall|i: int|
        0 <= i < p.phys_blocks().len() ==> #[trigger] p.phys_blocks()[i].len()
            == p.phys_block_size()
}

/// A buffer of `n` zero bytes.
pub fn zero_bytes(n: usize) -> (v: Vec<u8>)
    ensures
        v@ == Seq::new(n as nat, |k: int| 0u8),
{
    let mut v: Vec<u8> = Vec::new();
    while v.len() < n
        invariant
            v@.len() <= n,
            forall|k: int| 0 <= k < v@.len() ==> v@[k] == 0u8,
        decreases n - v@.len(),
    {
        v.push(0u8);
    }
    assert(v@ =~= Seq::new(n as nat, |k: int| 0u8));
    v
}

/// Fallible logical-block I/O layered over physical blocks.
///
/// This is directly consumed by [`crate::MyFileSystem`].
pub trait BufferedBlockDevice {
    /// The contents of the logical blocks.
    spec fn blocks(&self) -> Seq<Seq<u8>>;

    /// The size of every logical block.
    spec fn spec_block_size(&self) -> nat;

    /// The device's own invariant; it implies that every block holds `spec_block_size` bytes.
    spec fn wf(&self) -> bool;

    /// Requests within range, with buffers of the block size, never fail.
    open spec fn reliable(&self) -> bool {
        false
    }

    proof fn lemma_wf_block_lengths(&self)
        requires
            self.wf(),
        ensures
            forall|i: int|
                0 <= i < self.blocks().len() ==> #[trigger] self.blocks()[i].len()
                    == self.spec_block_size(),
    ;

    fn block_size(&self) -> (r: usize)
        requires
            self.wf(),
        ensures
            r == self.spec_block_size(),
    ;

    fn block_count(&self) -> (r: usize)
        requires
            self.wf(),
        ensures
            r == self.blocks().len(),
    ;

    fn read_block_into(&self, index: BlockId, dst: &mut [u8]) -> (r: Result<(), FsError>)
        requires
            self.wf(),
        ensures
            final(dst)@.len() == old(dst)@.len(),
            r is Ok ==> index.0 < self.blocks().len() && old(dst)@.len() == self.spec_block_size()
                && final(dst)@ == self.blocks()[index.0 as int],
            self.reliable() && index.0 < self.blocks().len() && old(dst)@.len()
                == self.spec_block_size() ==> r is Ok,
    ;

    fn write_block_from(&mut self, index: BlockId, src: &[u8]) -> (r: Result<(), FsError>)
        requires
            old(self).wf(),
        ensures
            final(self).wf(),
            final(self).spec_block_size() == old(self).spec_block_size(),
            final(self).blocks().len() == old(self).blocks().len(),
            final(self).reliable() == old(self).reliable(),
            r is Ok ==> index.0 < old(self).blocks().len() && src@.len()
                == old(self).spec_block_size() && final(self).blocks() == old(self).blocks().update(
                index.0 as int,
                src@,
            ),
            forall|j: int|
                0 <= j < old(self).blocks().len() && j != index.0 ==> #[trigger] final(self).blocks()[j] == old(self).blocks()[j],
            old(self).reliable() && index.0 < old(self).blocks().len() && src@.len()
                == old(self).spec_block_size() ==> r is Ok,
    ;

    fn zero_block(&mut self, index: BlockId) -> (r: Result<(), FsError>)
        requires
            old(self).wf(),
        ensures
            final(self).wf(),
            final(self).spec_block_size() == old(self).spec_block_size(),
            final(self).blocks().len() == old(self).blocks().len(),
            final(self).reliable() == old(self).reliable(),
            r is Ok ==> index.0 < old(self).blocks().len() && final(self).blocks() == old(self).blocks().update(index.0 as int, Seq::new(old(self).spec_block_size(), |k: int| 0u8)),
            forall|j: int|
                0 <= j < old(self).blocks().len() && j != index.0 ==> #[trigger] final(self).blocks()[j] == old(self).blocks()[j],
            old(self).reliable() && index.0 < old(self).blocks().len() ==> r is Ok,
    {
        let n = self.block_size();
        let zeros = zero_bytes(n);
        self.write_block_from(index, zeros.as_slice())
    }
}

/// The bytes of `n` consecutive blocks starting at `start`, one after another.
pub open spec fn concat_blocks(bs: Seq<Seq<u8>>, start: int, n: nat) -> Seq<u8>
    decreases n,
{
    if n == 0 {
        Seq::empty()
    } else {
        concat_blocks(bs, start, (n - 1) as nat) + bs[start + n - 1]
    }
}

pub proof fn lemma_concat_blocks_len(bs: Seq<Seq<u8>>, start: int, n: nat, size: nat)
    requires
        forall|k: int| start <= k < start + n ==> #[trigger] bs[k].len() == size,
    ensures
        concat_blocks(bs, start, n).len() == n * size,
    decreases n,
{
    if n > 0 {
        lemma_concat_blocks_len(bs, start, (n - 1) as nat, size);
        assert(bs[start + n - 1].len() == size);
        assert((n - 1) * size + size == n * size) by (nonlinear_arith);
    }
}

/// Byte `k` of block `start + j` sits at offset `j * size + k` of the concatenation.
pub proof fn lemma_concat_blocks_index(bs: Seq<Seq<u8>>, start: int, n: nat, size: nat, j: int, k: int)
    requires
        forall|m: int| start <= m < start + n ==> #[trigger] bs[m].len() == size,
        0 <= j < n,
        0 <= k < size,
    ensures
        0 <= j * size + k < n * size,
        concat_blocks(bs, start, n)[j * size + k] == bs[start + j][k],
    decreases n,
{
    lemma_concat_blocks_len(bs, start, n, size);
    assert(0 <= j * size + k < n * size) by (nonlinear_arith)
        requires
            0 <= j < n,
            0 <= k < size,
    ;
    if j == n - 1 {
        lemma_concat_blocks_len(bs, start, (n - 1) as nat, size);
    } else {
        lemma_concat_blocks_index(bs, start, (n - 1) as nat, size, j, k);
        lemma_concat_blocks_len(bs, start, (n - 1) as nat, size);
    }
}

/// Blocks cut from `data`, one after another, give `data` back.
pub proof fn lemma_concat_blocks_eq(bs: Seq<Seq<u8>>, start: int, n: nat, size: nat, data: Seq<u8>)
    requires
        size > 0,
        data.len() == n * size,
        forall|k: int| 0 <= k < n ==> #[trigger] bs[start + k] == data.subrange(k * size, k * size + size),
    ensures
        concat_blocks(bs, start, n) == data,
{
    assert forall|m: int| start <= m < start + n implies #[trigger] bs[m].len() == size by {
        let k = m - start;
        assert(bs[start + k] == data.subrange(k * size, k * size + size));
        assert(k * size + size <= n * size && 0 <= k * size) by (nonlinear_arith)
            requires
                0 <= k < n,
                size > 0,
        ;
    }
    lemma_concat_blocks_len(bs, start, n, size);
    let got = concat_blocks(bs, start, n);
    assert forall|m: int| 0 <= m < got.len() implies got[m] == data[m] by {
        let j = m / (size as int);
        let k2 = m % (size as int);
        assert(m == j * size + k2 && 0 <= j < n && 0 <= k2 < size) by (nonlinear_arith)
            requires
                0 <= m < n * size,
                size > 0,
                j == m / (size as int),
                k2 == m % (size as int),
        ;
        lemma_concat_blocks_index(bs, start, n, size, j, k2);
        assert(j * size + size <= n * size && 0 <= j * size) by (nonlinear_arith)
            requires
                0 <= j < n,
                size > 0,
        ;
        assert(bs[start + j] == data.subrange(j * size, j * size + size));
    }
    assert(got =~= data);
}

/// Two block sequences that agree on a range give the same concatenation of that range.
pub proof fn lemma_concat_blocks_agree(a: Seq<Seq<u8>>, b: Seq<Seq<u8>>, start: int, n: nat)
    requires
        forall|k: int| start <= k < start + n ==> #[trigger] a[k] == b[k],
    ensures
        concat_blocks(a, start, n) == concat_blocks(b, start, n),
    decreases n,
{
    if n > 0 {
        lemma_concat_blocks_agree(a, b, start, (n - 1) as nat);
        assert(a[start + n - 1] == b[start + n - 1]);
    }
}

} // verus!

verus! {

/// RAM-backed physical device.
#[derive(Debug)]
pub struct MemoryBackend {
    block_size: usize,
    blocks: Vec<Vec<u8>>,
}

impl MemoryBackend {
    /// A device of `block_count` zeroed blocks of `block_size` bytes.
    pub fn new(block_size: usize, block_count: usize) -> (r: MemoryBackend)
        ensures
            phys_wf(&r),
            r.phys_reliable(),
            r.phys_block_size() == block_size,
            r.phys_blocks() == Seq::new(
                block_count as nat,
                |i: int| Seq::new(block_size as nat, |k: int| 0u8),
            ),
    {
        let mut blocks: Vec<Vec<u8>> = Vec::new();
        while blocks.len() < block_count
            invariant
                blocks@.len() <= block_count,
                forall|i: int|
                    0 <= i < blocks@.len() ==> #[trigger] blocks@[i]@ == Seq::new(
                        block_size as nat,
                        |k: int| 0u8,
                    ),
            decreases block_count - blocks@.len(),
        {
            blocks.push(zero_bytes(block_size));
        }
        let r = MemoryBackend { block_size, blocks };
        assert(r.phys_blocks() =~= Seq::new(
            block_count as nat,
            |i: int| Seq::new(block_size as nat, |k: int| 0u8),
        ));
        r
    }
}

impl PhysicalBlockDevice for MemoryBackend {
    closed spec fn phys_blocks(&self) -> Seq<Seq<u8>> {
        self.blocks@.map_values(|v: Vec<u8>| v@)
    }

    closed spec fn phys_block_size(&self) -> nat {
        self.block_size as nat
    }

    closed spec fn phys_reliable(&self) -> bool {
        true
    }

    closed spec fn phys_inv(&self) -> bool {
        &&& self.blocks@.len() <= usize::MAX
        &&& forall|i: int|
            0 <= i < self.blocks@.len() ==> #[trigger] self.blocks@[i]@.len() == self.block_size
    }

    fn physical_block_size(&self) -> (r: usize) {
        self.block_size
    }

    fn physical_block_count(&self) -> (r: usize) {
        self.blocks.len()
    }

    fn read_physical_block(&self, index: PhysicalBlockId, dst: &mut [u8]) -> (r: Result<(), FsError>) {
        if dst.len() != self.block_size {
            return Err(
                FsError::InvalidConfig(
                    crate::report::two_numbered_text("buffer size ", dst.len() as u64, " does not match physical block size ", self.block_size as u64),
                ),
            );
        }
        if index.0 >= self.blocks.len() {
            return Err(
                FsError::InvalidConfig(crate::report::two_numbered_text("physical block ", index.0 as u64, " outside device range ", self.blocks.len() as u64)),
            );
        }
        let block = &self.blocks[index.0];
        assert(block@ == self.phys_blocks()[index.0 as int]);
        let mut k: usize = 0;
        while k < dst.len()
            invariant
                k <= dst@.len(),
                dst@.len() == old(dst)@.len(),
                block@.len() == dst@.len(),
                forall|m: int| 0 <= m < k ==> dst@[m] == block@[m],
            decreases dst@.len() - k,
        {
            dst[k] = block[k];
            k += 1;
        }
        assert(dst@ =~= block@);
        Ok(())
    }

    fn write_physical_block(&mut self, index: PhysicalBlockId, src: &[u8]) -> (r: Result<(), FsError>) {
        if src.len() != self.block_size {
            return Err(
                FsError::InvalidConfig(
                    crate::report::two_numbered_text("buffer size ", src.len() as u64, " does not match physical block size ", self.block_size as u64),
                ),
            );
        }
        if index.0 >= self.blocks.len() {
            return Err(
                FsError::InvalidConfig(crate::report::two_numbered_text("physical block ", index.0 as u64, " outside device range ", self.blocks.len() as u64)),
            );
        }
        let v = vstd::slice::slice_to_vec(src);
        self.blocks.set(index.0, v);
        assert(self.phys_blocks() =~= old(self).phys_blocks().update(index.0 as int, src@));
        Ok(())
    }
}

/// Adapter exposing filesystem logical blocks on top of a physical device.
///
/// One logical block must be an integer multiple of one physical block, and cannot be smaller.
#[derive(Debug)]
pub struct LogicalBlockDevice<P> {
    inner: P,
    logical_block_size: usize,
    logical_block_count: usize,
    physical_blocks_per_logical: usize,
}

/// A logical block device over memory.
pub type MemoryBlockDevice = LogicalBlockDevice<MemoryBackend>;

impl<P: PhysicalBlockDevice> LogicalBlockDevice<P> {
    /// The device underneath.
    pub closed spec fn inner_device(&self) -> P {
        self.inner
    }

    /// Creates the adapter; the logical block size must be a positive multiple of the physical
    /// block size that also divides the device.
    pub fn new(inner: P, logical_block_size: usize) -> (r: Result<LogicalBlockDevice<P>, FsError>)
        requires
            phys_wf(&inner),
            inner.phys_block_size() > 0 || logical_block_size > 0,
        ensures
            ({
                let pbs = inner.phys_block_size();
                let pc = inner.phys_blocks().len();
                let lbs = logical_block_size as nat;
                let ok = lbs >= pbs && pbs > 0 && lbs % pbs == 0 && pc % (lbs / pbs) == 0;
                &&& ok ==> r is Ok
                &&& !ok ==> r is Err && r->Err_0 is InvalidConfig
                &&& r matches Ok(d) ==> {
                    &&& d.wf()
                    &&& d.spec_block_size() == logical_block_size
                    &&& d.blocks().len() == pc / (lbs / pbs)
                    &&& d.reliable() == inner.phys_reliable()
                    &&& d.inner_device() == inner
                    &&& lbs == pbs ==> d.blocks() == inner.phys_blocks()
                }
            }),
    {
        let physical_block_size = inner.physical_block_size();
        if logical_block_size < physical_block_size {
            return Err(
                FsError::InvalidConfig(
                    crate::report::two_numbered_text("logical block size ", logical_block_size as u64, " smaller than physical block size ", physical_block_size as u64),
                ),
            );
        }
        if physical_block_size == 0 || logical_block_size % physical_block_size != 0 {
            return Err(
                FsError::InvalidConfig(
                    crate::report::two_numbered_text("logical block size ", logical_block_size as u64, " not multiple of physical block size ", physical_block_size as u64),
                ),
            );
        }
        let physical_blocks_per_logical = logical_block_size / physical_block_size;
        assert(physical_blocks_per_logical >= 1) by (nonlinear_arith)
            requires
                physical_blocks_per_logical == logical_block_size / physical_block_size,
                logical_block_size >= physical_block_size > 0,
        ;
        let count = inner.physical_block_count();
        if count % physical_blocks_per_logical != 0 {
            return Err(
                FsError::InvalidConfig(
                    String::from_str(
                        "physical block count not divisible by physical blocks per logical block",
                    ),
                ),
            );
        }
        let logical_block_count = count / physical_blocks_per_logical;
        proof {
            assert(physical_blocks_per_logical * physical_block_size == logical_block_size) by (nonlinear_arith)
                requires
                    physical_blocks_per_logical == logical_block_size / physical_block_size,
                    logical_block_size % physical_block_size == 0,
                    physical_block_size > 0,
            ;
            assert(logical_block_count * physical_blocks_per_logical == count) by (nonlinear_arith)
                requires
                    logical_block_count == count / physical_blocks_per_logical,
                    count % physical_blocks_per_logical == 0,
                    physical_blocks_per_logical > 0,
            ;
        }
        let d = LogicalBlockDevice { inner, logical_block_size, logical_block_count, physical_blocks_per_logical };
        proof {
            if logical_block_size == physical_block_size {
                assert(physical_blocks_per_logical == 1) by (nonlinear_arith)
                    requires
                        physical_blocks_per_logical == logical_block_size / physical_block_size,
                        logical_block_size == physical_block_size,
                        physical_block_size > 0,
                ;
                assert(logical_block_count == count);
                assert forall|i: int| 0 <= i < d.blocks().len() implies #[trigger] d.blocks()[i] == d.inner.phys_blocks()[i] by {
                    assert(concat_blocks(d.inner.phys_blocks(), i, 0) =~= Seq::<u8>::empty());
                    assert(concat_blocks(d.inner.phys_blocks(), i * 1, 1) =~= d.inner.phys_blocks()[i]);
                }
                assert(d.blocks() =~= d.inner.phys_blocks());
            }
        }
        Ok(d)
    }

    /// The device underneath.
    pub fn into_inner(self) -> (r: P)
        ensures
            r == self.inner_device(),
    {
        self.inner
    }

    fn physical_start_of(&self, index: BlockId) -> (r: Result<usize, FsError>)
        requires
            self.wf(),
        ensures
            (index.0 as int) < self.logical_block_count ==> (r matches Ok(v) && v == index.0
                * self.physical_blocks_per_logical),
            (index.0 as int) >= self.logical_block_count ==> r is Err && r->Err_0 is InvalidConfig,
    {
        let logical_index = index.0 as usize;
        if logical_index >= self.logical_block_count {
            return Err(
                FsError::InvalidConfig(crate::report::two_numbered_text("logical block ", logical_index as u64, " outside device range ", self.logical_block_count as u64)),
            );
        }
        proof {
            assert(logical_index * self.physical_blocks_per_logical <= self.logical_block_count
                * self.physical_blocks_per_logical) by (nonlinear_arith)
                requires
                    logical_index < self.logical_block_count,
            ;
        }
        Ok(logical_index * self.physical_blocks_per_logical)
    }
}

impl<P: PhysicalBlockDevice> BufferedBlockDevice for LogicalBlockDevice<P> {
    closed spec fn blocks(&self) -> Seq<Seq<u8>> {
        Seq::new(
            self.logical_block_count as nat,
            |i: int|
                concat_blocks(
                    self.inner.phys_blocks(),
                    i * self.physical_blocks_per_logical,
                    self.physical_blocks_per_logical as nat,
                ),
        )
    }

    closed spec fn spec_block_size(&self) -> nat {
        self.logical_block_size as nat
    }

    closed spec fn wf(&self) -> bool {
        &&& phys_wf(&self.inner)
        &&& self.inner.phys_block_size() > 0
        &&& self.physical_blocks_per_logical > 0
        &&& self.physical_blocks_per_logical * self.inner.phys_block_size() == self.logical_block_size
        &&& self.logical_block_count * self.physical_blocks_per_logical == self.inner.phys_blocks().len()
    }

    closed spec fn reliable(&self) -> bool {
        self.inner.phys_reliable()
    }

    proof fn lemma_wf_block_lengths(&self) {
        assert forall|i: int| 0 <= i < self.blocks().len() implies #[trigger] self.blocks()[i].len()
            == self.spec_block_size() by {
            let ppl = self.physical_blocks_per_logical as int;
            assert(i * ppl + ppl <= self.logical_block_count * ppl) by (nonlinear_arith)
                requires
                    0 <= i < self.logical_block_count,
                    ppl > 0,
            ;
            assert(0 <= i * ppl) by (nonlinear_arith)
                requires
                    0 <= i,
                    ppl > 0,
            ;
            lemma_concat_blocks_len(
                self.inner.phys_blocks(),
                i * ppl,
                ppl as nat,
                self.inner.phys_block_size(),
            );
        }
    }

    fn block_size(&self) -> (r: usize) {
        self.logical_block_size
    }

    fn block_count(&self) -> (r: usize) {
        self.logical_block_count
    }

    fn read_block_into(&self, index: BlockId, dst: &mut [u8]) -> (r: Result<(), FsError>) {
        if dst.len() != self.logical_block_size {
            return Err(
                FsError::InvalidConfig(
                    crate::report::two_numbered_text("buffer size ", dst.len() as u64, " does not match logical block size ", self.logical_block_size as u64),
                ),
            );
        }
        let physical_block_size = self.inner.physical_block_size();
        let physical_start = self.physical_start_of(index)?;
        let ppl = self.physical_blocks_per_logical;
        let ghost pbs = physical_block_size as int;
        let ghost pb = self.inner.phys_blocks();
        let ghost ps = physical_start as int;
        proof {
            assert(ps + ppl <= pb.len()) by (nonlinear_arith)
                requires
                    ps == index.0 * ppl,
                    index.0 < self.logical_block_count,
                    self.logical_block_count * ppl == pb.len(),
            ;
        }
        let mut buf = zero_bytes(physical_block_size);
        let mut offset: usize = 0;
        while offset < ppl
            invariant
                self.wf(),
                pb == self.inner.phys_blocks(),
                pbs == self.inner.phys_block_size(),
                ppl == self.physical_blocks_per_logical,
                ppl * pbs == self.logical_block_size,
                dst@.len() == self.logical_block_size,
                dst@.len() == old(dst)@.len(),
                ps + ppl <= pb.len(),
                pb.len() <= usize::MAX,
                physical_block_size == pbs,
                ps == physical_start,
                ps == index.0 * ppl,
                index.0 < self.logical_block_count,
                buf@.len() == pbs,
                pbs > 0,
                offset <= ppl,
                forall|j: int, k: int|
                    0 <= j < offset && 0 <= k < pbs ==> #[trigger] dst@[j * pbs + k] == pb[ps
                        + j][k],
            decreases ppl - offset,
        {
            proof {
                assert(physical_start + offset < pb.len());
            }
            self.inner.read_physical_block(PhysicalBlockId(physical_start + offset), buf.as_mut_slice())?;
            proof {
                assert(offset * pbs + pbs <= ppl * pbs) by (nonlinear_arith)
                    requires
                        offset < ppl,
                        pbs > 0,
                ;
            }
            let start = offset * physical_block_size;
            let ghost dst_before = dst@;
            let mut k: usize = 0;
            while k < physical_block_size
                invariant
                    k <= pbs == physical_block_size,
                    dst@.len() == dst_before.len(),
                    dst_before.len() == ppl * pbs,
                    start == offset * pbs,
                    start + pbs <= ppl * pbs,
                    ppl * pbs <= usize::MAX,
                    buf@ == pb[ps + offset],
                    buf@.len() == pbs,
                    forall|m: int| 0 <= m < dst@.len() && !(start <= m < start + k) ==> dst@[m] == dst_before[m],
                    forall|m: int| 0 <= m < k ==> dst@[start + m] == buf@[m],
                decreases pbs - k,
            {
                dst[start + k] = buf[k];
                k += 1;
            }
            proof {
                assert forall|j: int, k2: int| 0 <= j < offset + 1 && 0 <= k2 < pbs implies #[trigger] dst@[j * pbs + k2] == pb[ps + j][k2] by {
                    if j < offset {
                        assert(j * pbs + k2 < offset * pbs) by (nonlinear_arith)
                            requires
                                0 <= j < offset,
                                0 <= k2 < pbs,
                        ;
                        assert(0 <= j * pbs + k2) by (nonlinear_arith)
                            requires
                                0 <= j,
                                0 <= k2,
                                pbs > 0,
                        ;
                        assert(dst_before[j * pbs + k2] == pb[ps + j][k2]);
                    } else {
                        assert(j * pbs + k2 == start + k2);
                    }
                }
            }
            offset += 1;
        }
        proof {
            let want = self.blocks()[index.0 as int];
            assert(want == concat_blocks(pb, ps, ppl as nat));
            lemma_concat_blocks_len(pb, ps, ppl as nat, pbs as nat);
            assert forall|m: int| 0 <= m < dst@.len() implies dst@[m] == want[m] by {
                let j = m / pbs;
                let k2 = m % pbs;
                assert(m == j * pbs + k2 && 0 <= j < ppl && 0 <= k2 < pbs) by (nonlinear_arith)
                    requires
                        0 <= m < ppl * pbs,
                        pbs > 0,
                        j == m / pbs,
                        k2 == m % pbs,
                ;
                lemma_concat_blocks_index(pb, ps, ppl as nat, pbs as nat, j, k2);
            }
            assert(dst@ =~= want);
        }
        Ok(())
    }

    fn write_block_from(&mut self, index: BlockId, src: &[u8]) -> (r: Result<(), FsError>) {
        if src.len() != self.logical_block_size {
            return Err(
                FsError::InvalidConfig(
                    crate::report::two_numbered_text("buffer size ", src.len() as u64, " does not match logical block size ", self.logical_block_size as u64),
                ),
            );
        }
        let physical_block_size = self.inner.physical_block_size();
        let physical_start = self.physical_start_of(index)?;
        let ppl = self.physical_blocks_per_logical;
        let ghost pbs = physical_block_size as int;
        let ghost pb0 = self.inner.phys_blocks();
        let ghost ps = physical_start as int;
        proof {
            assert(ps + ppl <= pb0.len()) by (nonlinear_arith)
                requires
                    ps == index.0 * ppl,
                    index.0 < self.logical_block_count,
                    self.logical_block_count * ppl == pb0.len(),
            ;
        }
        let mut offset: usize = 0;
        while offset < ppl
            invariant
                self.wf(),
                self.logical_block_count == old(self).logical_block_count,
                self.logical_block_size == old(self).logical_block_size,
                ppl == self.physical_blocks_per_logical == old(self).physical_blocks_per_logical,
                pbs == self.inner.phys_block_size() == old(self).inner.phys_block_size(),
                self.inner.phys_reliable() == old(self).inner.phys_reliable(),
                pb0 == old(self).inner.phys_blocks(),
                self.inner.phys_blocks().len() == pb0.len(),
                ppl * pbs == self.logical_block_size,
                src@.len() == self.logical_block_size,
                ps + ppl <= pb0.len(),
                pb0.len() <= usize::MAX,
                physical_block_size == pbs,
                ps == physical_start,
                ps == index.0 * ppl,
                index.0 < self.logical_block_count,
                offset <= ppl,
                forall|j: int| 0 <= j < pb0.len() && !(ps <= j < ps + offset) ==> #[trigger] self.inner.phys_blocks()[j] == pb0[j],
                forall|j: int, k: int|
                    0 <= j < offset && 0 <= k < pbs ==> #[trigger] self.inner.phys_blocks()[ps + j][k] == src@[j * pbs + k],
            decreases ppl - offset,
        {
            proof {
                assert(offset * pbs + pbs <= ppl * pbs) by (nonlinear_arith)
                    requires
                        offset < ppl,
                        pbs > 0,
                ;
            }
            let start = offset * physical_block_size;
            let chunk = vstd::slice::slice_subrange(src, start, start + physical_block_size);
            let ghost before = self.inner.phys_blocks();
            let res = self.inner.write_physical_block(PhysicalBlockId(physical_start + offset), chunk);
            match res {
                Ok(()) => {},
                Err(e) => {
                    proof {
                        assert forall|j: int| 0 <= j < old(self).blocks().len() && j != index.0 implies #[trigger] self.blocks()[j] == old(self).blocks()[j] by {
                            let lc = self.logical_block_count as int;
                            assert(j * ppl + ppl <= ps || ps + ppl <= j * ppl) by (nonlinear_arith)
                                requires
                                    ps == index.0 * ppl,
                                    j != index.0,
                                    ppl > 0,
                            ;
                            assert(0 <= j * ppl && j * ppl + ppl <= lc * ppl) by (nonlinear_arith)
                                requires
                                    0 <= j < lc,
                                    ppl > 0,
                            ;
                            lemma_concat_blocks_agree(self.inner.phys_blocks(), pb0, j * ppl, ppl as nat);
                        }
                    }
                    return Err(e);
                },
            }
            proof {
                assert forall|j: int, k: int|
                    0 <= j < offset + 1 && 0 <= k < pbs implies #[trigger] self.inner.phys_blocks()[ps + j][k] == src@[j * pbs + k] by {
                    if j < offset {
                        assert(self.inner.phys_blocks()[ps + j] == before[ps + j]);
                    } else {
                        assert(self.inner.phys_blocks()[ps + j] == chunk@);
                        assert(start == j * pbs);
                    }
                }
            }
            offset += 1;
        }
        proof {
            let newv = self.blocks();
            let want = old(self).blocks().update(index.0 as int, src@);
            let lc = self.logical_block_count as int;
            assert forall|j: int| 0 <= j < lc implies newv[j] == want[j] by {
                if j == index.0 {
                    let got = concat_blocks(self.inner.phys_blocks(), ps, ppl as nat);
                    lemma_concat_blocks_len(self.inner.phys_blocks(), ps, ppl as nat, pbs as nat);
                    assert forall|m: int| 0 <= m < got.len() implies got[m] == src@[m] by {
                        let jj = m / pbs;
                        let k2 = m % pbs;
                        assert(m == jj * pbs + k2 && 0 <= jj < ppl && 0 <= k2 < pbs) by (nonlinear_arith)
                            requires
                                0 <= m < ppl * pbs,
                                pbs > 0,
                                jj == m / pbs,
                                k2 == m % pbs,
                        ;
                        lemma_concat_blocks_index(self.inner.phys_blocks(), ps, ppl as nat, pbs as nat, jj, k2);
                    }
                    assert(got =~= src@);
                } else {
                    assert(j * ppl + ppl <= ps || ps + ppl <= j * ppl) by (nonlinear_arith)
                        requires
                            ps == index.0 * ppl,
                            j != index.0,
                            ppl > 0,
                    ;
                    assert(0 <= j * ppl && j * ppl + ppl <= lc * ppl) by (nonlinear_arith)
                        requires
                            0 <= j < lc,
                            ppl > 0,
                    ;
                    lemma_concat_blocks_agree(self.inner.phys_blocks(), pb0, j * ppl, ppl as nat);
                }
            }
            assert(newv =~= want);
        }
        Ok(())
    }
}

} // verus!
