use vstd::prelude::*;
use vstd::set_lib::{lemma_int_range, lemma_len_subset, set_int_range};
use vstd::arithmetic::div_mod::{lemma_div_is_ordered, lemma_fundamental_div_mod};
use vstd::arithmetic::mul::lemma_mul_inequality;

use crate::bitmap::{BitMap, bit_at, lemma_set_result_bits};
use crate::error::Error;

verus! {

/// The stages of an upload session: it accepts chunks while `Writing`, and leaves that
/// stage once, to `Finished` or to `Cancelled`.
#[derive(Clone, Copy, Debug, PartialEq, Eq, Structural)]
pub enum Phase {
    Writing,
    Finished,
    Cancelled,
}

/// Chunk indices at and above this bound have no mark the bitmap's storage can address.
pub const MAX_CHUNKS: usize = usize::MAX / 8 * 8;

/// The number of chunks of a file: the declared size divided by the chunk size, rounded up.
pub open spec fn chunk_count(size: nat, chunk_size: nat) -> nat {
    if size == 0 || chunk_size == 0 {
        0
    } else {
        (1 + (size - 1) as nat / chunk_size) as nat
    }
}

/// The number of bytes that chunk `index` holds: a full chunk, or what is left of the file.
pub open spec fn slot_len(size: nat, chunk_size: nat, index: int) -> nat {
    let pos = index * chunk_size;
    if pos >= size {
        0
    } else if size - pos < chunk_size {
        (size - pos) as nat
    } else {
        chunk_size
    }
}

/// `x`, or `usize::MAX` where `x` does not fit.
pub open spec fn saturate(x: int) -> usize {
    if x > usize::MAX {
        usize::MAX
    } else {
        x as usize
    }
}

/// What a session is: its geometry, the data of each chunk written so far, and its stage.
pub struct UploadView {
    pub size: nat,
    pub chunk_size: nat,
    pub written: Map<int, Seq<u8>>,
    pub phase: Phase,
}

/// A session as it is created: nothing written, accepting chunks.
pub open spec fn fresh_view(size: nat, chunk_size: nat) -> UploadView {
    UploadView { size, chunk_size, written: Map::empty(), phase: Phase::Writing }
}

/// Whether a write of chunk `index` may begin.
pub open spec fn chunk_check(v: UploadView, index: int) -> Result<(), Error> {
    if v.phase != Phase::Writing {
        Err(Error::InvalidFileToken)
    } else if v.written.contains_key(index) {
        Err(Error::ChunkAlreadyWritten)
    } else if !(0 <= index && index * v.chunk_size < v.size && index < MAX_CHUNKS) {
        Err(Error::InvalidChunkIndex)
    } else {
        Ok(())
    }
}

/// The outcome of writing `data` as chunk `index`.
pub open spec fn write_outcome(v: UploadView, index: int, data: Seq<u8>) -> Result<usize, Error> {
    match chunk_check(v, index) {
        Err(e) => Err(e),
        Ok(_) => {
            let expected = slot_len(v.size, v.chunk_size, index);
            if data.len() == expected {
                Ok(expected as usize)
            } else {
                Err(Error::DataNotFitIn(saturate(index * v.chunk_size + data.len())))
            }
        },
    }
}

/// The session after writing `data` as chunk `index`: the chunk is recorded on success only.
pub open spec fn after_write(v: UploadView, index: int, data: Seq<u8>) -> UploadView {
    if write_outcome(v, index, data) is Ok {
        UploadView { written: v.written.insert(index, data), ..v }
    } else {
        v
    }
}

/// Whether every chunk of the session has been written.
pub open spec fn is_complete(v: UploadView) -> bool {
    forall|i: int| 0 <= i < chunk_count(v.size, v.chunk_size) ==> #[trigger] v.written.contains_key(i)
}

/// Whether `m` is the first chunk of the session that has not been written.
pub open spec fn is_first_missing(v: UploadView, m: int) -> bool {
    &&& 0 <= m < chunk_count(v.size, v.chunk_size)
    &&& !v.written.contains_key(m)
    &&& forall|j: int| 0 <= j < m ==> #[trigger] v.written.contains_key(j)
}

/// What holds of every session: recorded chunks are in range and hold exactly their slot.
pub open spec fn view_wf(v: UploadView) -> bool {
    &&& v.chunk_size > 0
    &&& v.written.dom().finite()
    &&& forall|i: int| #[trigger]
        v.written.contains_key(i) ==> 0 <= i < chunk_count(v.size, v.chunk_size) && i < MAX_CHUNKS
            && v.written[i].len() == slot_len(v.size, v.chunk_size, i)
}

/// A chunk index lies in the file exactly when it is below the chunk count.
pub proof fn lemma_index_in_file(size: nat, chunk_size: nat, index: int)
    requires
        chunk_size > 0,
        index >= 0,
    ensures
        (index * chunk_size < size) == (index < chunk_count(size, chunk_size)),
{
    if size > 0 {
        let s = size - 1;
        let q = s / chunk_size as int;
        lemma_fundamental_div_mod(s, chunk_size as int);
        if index * chunk_size < size {
            lemma_div_is_ordered(index * chunk_size, s, chunk_size as int);
            vstd::arithmetic::div_mod::lemma_div_by_multiple(index, chunk_size as int);
        }
        if index <= q {
            lemma_mul_inequality(index, q, chunk_size as int);
            assert(q * chunk_size == chunk_size * q) by (nonlinear_arith);
        }
    } else {
        assert(index * chunk_size >= 0) by (nonlinear_arith)
            requires
                index >= 0,
                chunk_size > 0,
        ;
    }
}

/// The chunk count never exceeds the size.
proof fn lemma_count_le_size(size: nat, chunk_size: nat)
    requires
        chunk_size > 0,
    ensures
        chunk_count(size, chunk_size) <= size,
{
    if size > 0 {
        let s = (size - 1) as int;
        vstd::arithmetic::div_mod::lemma_div_is_ordered_by_denominator(s, 1, chunk_size as int);
        assert(s / 1 == s);
    }
}

/// Recorded chunks number fewer than the chunk count while one of them is missing.
proof fn lemma_missing_bounds_count(written: Map<int, Seq<u8>>, n: nat, missing: int)
    requires
        written.dom().finite(),
        forall|i: int| #[trigger] written.contains_key(i) ==> 0 <= i < n,
        0 <= missing < n,
        !written.contains_key(missing),
    ensures
        written.dom().len() < n,
{
    let range = set_int_range(0, n as int);
    lemma_int_range(0, n as int);
    let rest = range.remove(missing);
    assert(written.dom().subset_of(rest));
    lemma_len_subset(written.dom(), rest);
}

/// Recorded chunks number exactly the chunk count when none is missing.
proof fn lemma_full_count(written: Map<int, Seq<u8>>, n: nat)
    requires
        written.dom().finite(),
        forall|i: int| #[trigger] written.contains_key(i) ==> 0 <= i < n,
        forall|i: int| 0 <= i < n ==> #[trigger] written.contains_key(i),
    ensures
        written.dom().len() == n,
{
    let range = set_int_range(0, n as int);
    lemma_int_range(0, n as int);
    assert(written.dom() =~= range);
}

/// The session after writing, in the order given, chunk `order[k]` with data `chunks[order[k]]`.
pub open spec fn write_in_order(v: UploadView, order: Seq<int>, chunks: Seq<Seq<u8>>) -> UploadView
    decreases order.len(),
{
    if order.len() == 0 {
        v
    } else {
        after_write(write_in_order(v, order.drop_last(), chunks), order.last(), chunks[order.last()])
    }
}

/// The parts joined end to end, in order.
pub open spec fn concat_all(parts: Seq<Seq<u8>>) -> Seq<u8>
    decreases parts.len(),
{
    if parts.len() == 0 {
        Seq::empty()
    } else {
        concat_all(parts.drop_last()) + parts.last()
    }
}

/// The file a session makes: its chunks' data joined in index order.
pub open spec fn assembled(v: UploadView) -> Seq<u8> {
    concat_all(Seq::new(chunk_count(v.size, v.chunk_size), |i: int| v.written[i]))
}

/// The first `k` slots of a file hold `k` full chunks, or the whole file.
proof fn lemma_slots_length(size: nat, chunk_size: nat, chunks: Seq<Seq<u8>>, k: nat)
    requires
        chunk_size > 0,
        k <= chunks.len() == chunk_count(size, chunk_size),
        forall|i: int| 0 <= i < chunks.len() ==> #[trigger] chunks[i].len() == slot_len(size, chunk_size, i),
    ensures
        concat_all(chunks.take(k as int)).len() == if k * chunk_size <= size {
            (k * chunk_size) as int
        } else {
            size as int
        },
    decreases k,
{
    if k == 0 {
        assert(chunks.take(0) =~= Seq::<Seq<u8>>::empty());
        assert(k * chunk_size == 0);
    } else {
        let j = (k - 1) as nat;
        lemma_slots_length(size, chunk_size, chunks, j);
        assert(chunks.take(k as int).drop_last() =~= chunks.take(j as int));
        assert(chunks.take(k as int).last() == chunks[j as int]);
        assert(concat_all(chunks.take(k as int)) == concat_all(chunks.take(j as int)) + chunks[j as int]);
        lemma_index_in_file(size, chunk_size, j as int);
        let p = j * chunk_size;
        assert(p < size);
        assert(k * chunk_size == p + chunk_size) by (nonlinear_arith)
            requires
                k == j + 1,
                p == j * chunk_size,
        ;
        assert(chunks[j as int].len() == slot_len(size, chunk_size, j as int));
        if size - p < chunk_size {
            assert(slot_len(size, chunk_size, j as int) == size - p);
        } else {
            assert(slot_len(size, chunk_size, j as int) == chunk_size);
        }
    }
}

/// Writing every chunk once, in any order, succeeds at each step and leaves the session
/// complete and writing (so finishing succeeds); its chunks joined in index order are the
/// data given, whose length is the declared size.
pub proof fn lemma_permuted_writes_assemble(
    size: nat,
    chunk_size: nat,
    order: Seq<int>,
    chunks: Seq<Seq<u8>>,
)
    requires
        chunk_size > 0,
        chunk_count(size, chunk_size) <= MAX_CHUNKS,
        chunks.len() == chunk_count(size, chunk_size),
        forall|i: int| 0 <= i < chunks.len() ==> #[trigger] chunks[i].len() == slot_len(size, chunk_size, i),
        order.len() == chunks.len(),
        order.no_duplicates(),
        forall|k: int| 0 <= k < order.len() ==> 0 <= #[trigger] order[k] < chunks.len(),
    ensures
        forall|k: int|
            0 <= k < order.len() ==> #[trigger] write_outcome(
                write_in_order(fresh_view(size, chunk_size), order.take(k), chunks),
                order[k],
                chunks[order[k]],
            ) == Ok::<usize, Error>(slot_len(size, chunk_size, order[k]) as usize),
        write_in_order(fresh_view(size, chunk_size), order, chunks).phase == Phase::Writing,
        is_complete(write_in_order(fresh_view(size, chunk_size), order, chunks)),
        assembled(write_in_order(fresh_view(size, chunk_size), order, chunks)) == concat_all(chunks),
        concat_all(chunks).len() == size,
{
    let fresh = fresh_view(size, chunk_size);
    let n = chunks.len();
    assert forall|k: int| 0 <= k <= n implies {
        let v = #[trigger] write_in_order(fresh, order.take(k), chunks);
        &&& v.size == size && v.chunk_size == chunk_size && v.phase == Phase::Writing
        &&& v.written.dom() =~= order.take(k).to_set()
        &&& forall|i: int| #[trigger] v.written.contains_key(i) ==> v.written[i] == chunks[i]
    } by {
        lemma_prefix_written(size, chunk_size, order, chunks, k as nat);
    }
    assert forall|k: int| 0 <= k < order.len() implies #[trigger] write_outcome(
        write_in_order(fresh, order.take(k), chunks),
        order[k],
        chunks[order[k]],
    ) == Ok::<usize, Error>(slot_len(size, chunk_size, order[k]) as usize) by {
        lemma_prefix_written(size, chunk_size, order, chunks, k as nat);
        lemma_step_succeeds(size, chunk_size, order, chunks, k as nat);
    }
    assert(order.take(n as int) =~= order);
    let v = write_in_order(fresh, order, chunks);
    lemma_prefix_written(size, chunk_size, order, chunks, n);
    order.unique_seq_to_set();
    let range = set_int_range(0, n as int);
    lemma_int_range(0, n as int);
    assert(order.to_set().subset_of(range));
    vstd::set_lib::lemma_subset_equality(order.to_set(), range);
    assert forall|i: int| 0 <= i < chunk_count(v.size, v.chunk_size) implies #[trigger]
        v.written.contains_key(i) by {
        assert(range.contains(i));
    }
    assert forall|i: int| 0 <= i < n implies v.written[i] == chunks[i] by {
        assert(range.contains(i));
        assert(v.written.contains_key(i));
    }
    assert(Seq::new(chunk_count(v.size, v.chunk_size), |i: int| v.written[i]) =~= chunks);
    lemma_slots_length(size, chunk_size, chunks, n);
    assert(chunks.take(n as int) =~= chunks);
    lemma_index_in_file(size, chunk_size, n as int);
}

/// What the first `k` writes of `lemma_permuted_writes_assemble` leave: the chunks written
/// are those of the prefix, each holding its data.
proof fn lemma_prefix_written(size: nat, chunk_size: nat, order: Seq<int>, chunks: Seq<Seq<u8>>, k: nat)
    requires
        chunk_size > 0,
        chunk_count(size, chunk_size) <= MAX_CHUNKS,
        chunks.len() == chunk_count(size, chunk_size),
        forall|i: int| 0 <= i < chunks.len() ==> #[trigger] chunks[i].len() == slot_len(size, chunk_size, i),
        order.len() == chunks.len(),
        order.no_duplicates(),
        forall|j: int| 0 <= j < order.len() ==> 0 <= #[trigger] order[j] < chunks.len(),
        k <= order.len(),
    ensures
        ({
            let v = write_in_order(fresh_view(size, chunk_size), order.take(k as int), chunks);
            &&& v.size == size && v.chunk_size == chunk_size && v.phase == Phase::Writing
            &&& v.written.dom() =~= order.take(k as int).to_set()
            &&& forall|i: int| #[trigger] v.written.contains_key(i) ==> v.written[i] == chunks[i]
        }),
    decreases k,
{
    let fresh = fresh_view(size, chunk_size);
    if k == 0 {
        assert(order.take(0).to_set() =~= Set::empty());
        assert(fresh.written.dom() =~= Set::empty());
    } else {
        let j = (k - 1) as nat;
        lemma_prefix_written(size, chunk_size, order, chunks, j);
        lemma_step_succeeds(size, chunk_size, order, chunks, j);
        assert(order.take(k as int).drop_last() =~= order.take(j as int));
        assert(order.take(k as int).last() == order[j as int]);
        let prev = write_in_order(fresh, order.take(j as int), chunks);
        let v = write_in_order(fresh, order.take(k as int), chunks);
        assert(v == after_write(prev, order[j as int], chunks[order[j as int]]));
        assert forall|x: int| v.written.dom().contains(x) == order.take(k as int).to_set().contains(x) by {
            if order.take(k as int).contains(x) {
                let w = choose|w: int| 0 <= w < k && order.take(k as int)[w] == x;
                if w < j {
                    assert(order.take(j as int)[w] == x);
                }
            }
            if order.take(j as int).contains(x) {
                let w = choose|w: int| 0 <= w < j && order.take(j as int)[w] == x;
                assert(order.take(k as int)[w] == x);
            }
            if x == order[j as int] {
                assert(order.take(k as int)[j as int] == x);
            }
        }
    }
}

/// The write after the first `k` of `lemma_permuted_writes_assemble` succeeds.
proof fn lemma_step_succeeds(size: nat, chunk_size: nat, order: Seq<int>, chunks: Seq<Seq<u8>>, k: nat)
    requires
        chunk_size > 0,
        chunk_count(size, chunk_size) <= MAX_CHUNKS,
        chunks.len() == chunk_count(size, chunk_size),
        forall|i: int| 0 <= i < chunks.len() ==> #[trigger] chunks[i].len() == slot_len(size, chunk_size, i),
        order.len() == chunks.len(),
        order.no_duplicates(),
        forall|j: int| 0 <= j < order.len() ==> 0 <= #[trigger] order[j] < chunks.len(),
        k < order.len(),
        ({
            let v = write_in_order(fresh_view(size, chunk_size), order.take(k as int), chunks);
            &&& v.size == size && v.chunk_size == chunk_size && v.phase == Phase::Writing
            &&& v.written.dom() =~= order.take(k as int).to_set()
        }),
    ensures
        write_outcome(
            write_in_order(fresh_view(size, chunk_size), order.take(k as int), chunks),
            order[k as int],
            chunks[order[k as int]],
        ) == Ok::<usize, Error>(slot_len(size, chunk_size, order[k as int]) as usize),
{
    let v = write_in_order(fresh_view(size, chunk_size), order.take(k as int), chunks);
    let x = order[k as int];
    if order.take(k as int).contains(x) {
        let w = choose|w: int| 0 <= w < k && order.take(k as int)[w] == x;
        assert(order[w] == order[k as int]);
    }
    assert(!v.written.contains_key(x));
    lemma_index_in_file(size, chunk_size, x);
}

/// A chunk written once is refused when written again, whatever the data, and keeps the data
/// of its first write.
pub proof fn lemma_rewrite_refused(v: UploadView, index: int, first: Seq<u8>, second: Seq<u8>)
    requires
        write_outcome(v, index, first) is Ok,
    ensures
        write_outcome(after_write(v, index, first), index, second) == Err::<usize, Error>(
            Error::ChunkAlreadyWritten,
        ),
        after_write(after_write(v, index, first), index, second) == after_write(v, index, first),
        after_write(v, index, first).written[index] == first,
{
}

/// A write of one chunk in progress: where it goes and what has arrived so far.
pub struct ChunkWrite {
    index: usize,
    offset: usize,
    expected: usize,
    count: usize,
    size: usize,
    chunk_size: usize,
    data: Ghost<Seq<u8>>,
}

impl ChunkWrite {
    /// The chunk being written.
    pub closed spec fn spec_index(&self) -> int {
        self.index as int
    }

    /// The byte position of the chunk in the file.
    pub closed spec fn spec_offset(&self) -> int {
        self.offset as int
    }

    /// The number of bytes the chunk must hold.
    pub closed spec fn spec_expected(&self) -> nat {
        self.expected as nat
    }

    /// The bytes accepted so far.
    pub closed spec fn spec_data(&self) -> Seq<u8> {
        self.data@
    }

    /// The size and chunk size of the session the write was begun for.
    pub closed spec fn geometry(&self) -> (nat, nat) {
        (self.size as nat, self.chunk_size as nat)
    }

    pub closed spec fn wf(&self) -> bool {
        &&& self.chunk_size > 0
        &&& self.offset == self.index * self.chunk_size
        &&& self.offset < self.size
        &&& self.expected == slot_len(self.size as nat, self.chunk_size as nat, self.index as int)
        &&& self.count == self.data@.len()
        &&& self.count <= self.expected
    }

    /// The index of the chunk being written.
    pub fn index(&self) -> (r: usize)
        ensures
            r == self.spec_index(),
    {
        self.index
    }

    /// Takes the next piece of the chunk's body. Returns the file position at which the piece
    /// is to be written, or `DataNotFitIn` with the position reached where the piece would
    /// overrun the chunk; the piece is then not taken.
    pub fn accept(&mut self, piece: &[u8]) -> (r: Result<usize, Error>)
        requires
            old(self).wf(),
        ensures
            final(self).wf(),
            final(self).spec_index() == old(self).spec_index(),
            final(self).spec_offset() == old(self).spec_offset(),
            final(self).spec_expected() == old(self).spec_expected(),
            final(self).geometry() == old(self).geometry(),
            old(self).spec_data().len() + piece@.len() > old(self).spec_expected() ==> {
                &&& r == Err::<usize, Error>(
                    Error::DataNotFitIn(
                        saturate(
                            old(self).spec_offset() + old(self).spec_data().len() + piece@.len(),
                        ),
                    ),
                )
                &&& final(self).spec_data() == old(self).spec_data()
            },
            old(self).spec_data().len() + piece@.len() <= old(self).spec_expected() ==> {
                &&& r == Ok::<usize, Error>((old(self).spec_offset() + old(self).spec_data().len()) as usize)
                &&& final(self).spec_data() == old(self).spec_data() + piece@
            },
    {
        let len = piece.len();
        let room = self.expected - self.count;
        if len > room {
            let position = (self.offset + self.count).saturating_add(len);
            return Err(Error::DataNotFitIn(position));
        }
        let position = self.offset + self.count;
        self.count = self.count + len;
        self.data = Ghost(self.data@ + piece@);
        Ok(position)
    }
}

/// One file being uploaded in chunks: its declared geometry, the chunks written so far
/// (marked in a bitmap and counted), and its stage.
pub struct PendingFile {
    token: u128,
    name: String,
    size: usize,
    path: String,
    chunk_size: usize,
    chunks: Vec<u8>,
    filled: usize,
    phase: Phase,
    written: Ghost<Map<int, Seq<u8>>>,
}

impl View for PendingFile {
    type V = UploadView;

    closed spec fn view(&self) -> UploadView {
        UploadView {
            size: self.size as nat,
            chunk_size: self.chunk_size as nat,
            written: self.written@,
            phase: self.phase,
        }
    }
}

impl PendingFile {
    pub closed spec fn wf(&self) -> bool {
        &&& view_wf(self@)
        &&& self.chunks@.len() <= usize::MAX / 8
        &&& forall|i: int| #[trigger] bit_at(self.chunks@, i) == self.written@.contains_key(i)
        &&& self.filled == self.written@.dom().len()
    }

    pub closed spec fn spec_token(&self) -> u128 {
        self.token
    }

    pub closed spec fn spec_name(&self) -> Seq<char> {
        self.name@
    }

    pub closed spec fn spec_path(&self) -> Seq<char> {
        self.path@
    }

    /// The chunk marks of the session, one bit per chunk.
    pub closed spec fn spec_chunks(&self) -> Seq<u8> {
        self.chunks@
    }

    /// The invariants every session keeps: its recorded chunks are in range and hold exactly
    /// their slot, the chunk size is positive, the geometry fits in `usize`, a chunk is marked
    /// exactly when it is recorded, and the recorded chunks number at most the chunk count.
    pub proof fn wf_facts(&self)
        requires
            self.wf(),
        ensures
            view_wf(self@),
            self@.size <= usize::MAX,
            self@.chunk_size <= usize::MAX,
            forall|i: int| #[trigger] bit_at(self.spec_chunks(), i) == self@.written.contains_key(i),
            self@.written.dom().len() <= chunk_count(self@.size, self@.chunk_size),
    {
        let n = chunk_count(self.size as nat, self.chunk_size as nat);
        lemma_int_range(0, n as int);
        assert(self.written@.dom().subset_of(set_int_range(0, n as int)));
        lemma_len_subset(self.written@.dom(), set_int_range(0, n as int));
    }

    /// A session for a file of `size` bytes in chunks of `chunk_size` bytes, with nothing
    /// written yet.
    pub fn new(token: u128, name: String, size: usize, path: String, chunk_size: usize) -> (r: Self)
        requires
            chunk_size > 0,
        ensures
            r.wf(),
            r@ == fresh_view(size as nat, chunk_size as nat),
            r.spec_token() == token,
            r.spec_name() == name@,
            r.spec_path() == path@,
    {
        let r = PendingFile {
            token,
            name,
            size,
            path,
            chunk_size,
            chunks: Vec::new(),
            filled: 0,
            phase: Phase::Writing,
            written: Ghost(Map::empty()),
        };
        assert(r.written@.dom() =~= Set::empty());
        r
    }

    /// The session's token.
    pub fn token(&self) -> (r: u128)
        ensures
            r == self.spec_token(),
    {
        self.token
    }

    /// The name the client gave the file.
    pub fn name(&self) -> (r: &str)
        ensures
            r@ == self.spec_name(),
    {
        self.name.as_str()
    }

    /// Where the file is stored.
    pub fn path(&self) -> (r: &str)
        ensures
            r@ == self.spec_path(),
    {
        self.path.as_str()
    }

    /// The number of chunks written so far, which never exceeds the chunk count.
    pub fn filled(&self) -> (r: usize)
        requires
            self.wf(),
        ensures
            r == self@.written.dom().len(),
            r <= chunk_count(self@.size, self@.chunk_size),
    {
        proof {
            let n = chunk_count(self.size as nat, self.chunk_size as nat);
            lemma_int_range(0, n as int);
            assert(self.written@.dom().subset_of(set_int_range(0, n as int)));
            lemma_len_subset(self.written@.dom(), set_int_range(0, n as int));
        }
        self.filled
    }

    /// The number of chunks of the file.
    pub fn chunk_number(&self) -> (r: usize)
        requires
            self.wf(),
        ensures
            r == chunk_count(self@.size, self@.chunk_size),
    {
        proof {
            lemma_count_le_size(self.size as nat, self.chunk_size as nat);
        }
        if self.size == 0 {
            0
        } else {
            1 + ((self.size - 1) / self.chunk_size)
        }
    }

    /// Begins writing chunk `chunk_index`. Fails with `InvalidFileToken` once the session has
    /// left the writing stage, `ChunkAlreadyWritten` for a chunk written before, and
    /// `InvalidChunkIndex` where the chunk would start at or past the end of the file.
    pub fn begin_chunk(&self, chunk_index: usize) -> (r: Result<ChunkWrite, Error>)
        requires
            self.wf(),
        ensures
            match r {
                Ok(w) => {
                    &&& chunk_check(self@, chunk_index as int) is Ok
                    &&& w.wf()
                    &&& w.spec_index() == chunk_index
                    &&& w.spec_offset() == chunk_index * self@.chunk_size
                    &&& w.spec_expected() == slot_len(self@.size, self@.chunk_size, chunk_index as int)
                    &&& w.spec_data() == Seq::<u8>::empty()
                    &&& w.geometry() == (self@.size, self@.chunk_size)
                },
                Err(e) => chunk_check(self@, chunk_index as int) == Err::<(), Error>(e),
            },
    {
        if self.phase != Phase::Writing {
            return Err(Error::InvalidFileToken);
        }
        if self.chunks.get_bit(chunk_index) {
            return Err(Error::ChunkAlreadyWritten);
        }
        let pos = match chunk_index.checked_mul(self.chunk_size) {
            Some(pos) => pos,
            None => {
                return Err(Error::InvalidChunkIndex);
            },
        };
        if pos >= self.size || chunk_index >= MAX_CHUNKS {
            return Err(Error::InvalidChunkIndex);
        }
        let left = self.size - pos;
        let expected = if left < self.chunk_size {
            left
        } else {
            self.chunk_size
        };
        Ok(
            ChunkWrite {
                index: chunk_index,
                offset: pos,
                expected,
                count: 0,
                size: self.size,
                chunk_size: self.chunk_size,
                data: Ghost(Seq::empty()),
            },
        )
    }

    /// Ends the write `w`: records the chunk where its body filled the slot exactly, else
    /// fails with `DataNotFitIn` at the position reached. The checks of `begin_chunk` are
    /// made again, and a write begun for another geometry is refused as `InvalidChunkIndex`.
    pub fn end_chunk(&mut self, w: ChunkWrite) -> (r: Result<usize, Error>)
        requires
            old(self).wf(),
            w.wf(),
        ensures
            final(self).wf(),
            final(self).spec_token() == old(self).spec_token(),
            final(self).spec_name() == old(self).spec_name(),
            final(self).spec_path() == old(self).spec_path(),
            w.geometry() == (old(self)@.size, old(self)@.chunk_size) ==> {
                &&& r == write_outcome(old(self)@, w.spec_index(), w.spec_data())
                &&& final(self)@ == after_write(old(self)@, w.spec_index(), w.spec_data())
            },
            w.geometry() != (old(self)@.size, old(self)@.chunk_size) ==> {
                &&& r == Err::<usize, Error>(Error::InvalidChunkIndex)
                &&& final(self)@ == old(self)@
            },
    {
        if w.size != self.size || w.chunk_size != self.chunk_size {
            return Err(Error::InvalidChunkIndex);
        }
        if self.phase != Phase::Writing {
            return Err(Error::InvalidFileToken);
        }
        if self.chunks.get_bit(w.index) {
            return Err(Error::ChunkAlreadyWritten);
        }
        if w.index >= MAX_CHUNKS {
            return Err(Error::InvalidChunkIndex);
        }
        if w.count != w.expected {
            return Err(Error::DataNotFitIn(w.offset + w.count));
        }
        proof {
            let n = chunk_count(self.size as nat, self.chunk_size as nat);
            lemma_index_in_file(self.size as nat, self.chunk_size as nat, w.index as int);
            lemma_missing_bounds_count(self.written@, n, w.index as int);
            lemma_count_le_size(self.size as nat, self.chunk_size as nat);
            lemma_set_result_bits(self.chunks@, w.index as nat);
        }
        self.chunks.set_bit(w.index);
        self.filled = self.filled + 1;
        self.written = Ghost(self.written@.insert(w.index as int, w.data@));
        proof {
            assert(self.written@.dom() =~= old(self).written@.dom().insert(w.index as int));
            assert forall|i: int| #[trigger]
                self.written@.contains_key(i) implies 0 <= i < chunk_count(self@.size, self@.chunk_size)
                && i < MAX_CHUNKS && self.written@[i].len() == slot_len(
                self@.size,
                self@.chunk_size,
                i,
            ) by {
                if i != w.index {
                    assert(old(self).written@.contains_key(i));
                }
            }
            assert(after_write(old(self)@, w.index as int, w.data@).written =~= self.written@);
        }
        Ok(w.expected)
    }

    /// Writes `data` as the whole body of chunk `chunk_index`, with the checks and the
    /// outcome of `begin_chunk`, `ChunkWrite::accept` and `end_chunk`.
    pub fn write_chunk(&mut self, chunk_index: usize, data: &[u8]) -> (r: Result<usize, Error>)
        requires
            old(self).wf(),
        ensures
            final(self).wf(),
            final(self).spec_token() == old(self).spec_token(),
            final(self).spec_name() == old(self).spec_name(),
            final(self).spec_path() == old(self).spec_path(),
            r == write_outcome(old(self)@, chunk_index as int, data@),
            final(self)@ == after_write(old(self)@, chunk_index as int, data@),
    {
        let mut w = match self.begin_chunk(chunk_index) {
            Ok(w) => w,
            Err(e) => {
                return Err(e);
            },
        };
        match w.accept(data) {
            Ok(_) => {},
            Err(e) => {
                return Err(e);
            },
        }
        assert(w.spec_data() =~= data@);
        self.end_chunk(w)
    }

    /// Ends the writing stage where every chunk is written. Fails with `FileNotFilledUp`
    /// citing the first missing chunk where one is missing, and with `InvalidFileToken` once
    /// the session has left the writing stage; neither failure changes the session.
    pub fn finish(&mut self) -> (r: Result<(), Error>)
        requires
            old(self).wf(),
        ensures
            final(self).wf(),
            final(self).spec_token() == old(self).spec_token(),
            final(self).spec_name() == old(self).spec_name(),
            final(self).spec_path() == old(self).spec_path(),
            final(self)@.written == old(self)@.written,
            old(self)@.phase != Phase::Writing ==> r == Err::<(), Error>(Error::InvalidFileToken)
                && final(self)@ == old(self)@,
            old(self)@.phase == Phase::Writing && is_complete(old(self)@) ==> r is Ok
                && final(self)@ == (UploadView { phase: Phase::Finished, ..old(self)@ }),
            old(self)@.phase == Phase::Writing && !is_complete(old(self)@) ==> {
                &&& r matches Err(Error::FileNotFilledUp(m)) && is_first_missing(old(self)@, m as int)
                &&& final(self)@ == old(self)@
            },
    {
        if self.phase != Phase::Writing {
            return Err(Error::InvalidFileToken);
        }
        let n = self.chunk_number();
        if self.filled < n {
            proof {
                let nn = chunk_count(self.size as nat, self.chunk_size as nat);
                if is_complete(self@) {
                    lemma_full_count(self.written@, nn);
                }
            }
            let m = self.chunks.first_unset();
            proof {
                let nn = chunk_count(self.size as nat, self.chunk_size as nat);
                let missing = choose|i: int| 0 <= i < nn && !#[trigger] self.written@.contains_key(i);
                assert(!bit_at(self.chunks@, missing));
                if m > missing {
                    assert(bit_at(self.chunks@, missing));
                }
                assert(!bit_at(self.chunks@, m as int));
                assert forall|j: int| 0 <= j < m implies #[trigger] self.written@.contains_key(j) by {
                    assert(bit_at(self.chunks@, j));
                }
                assert(is_first_missing(self@, m as int));
            }
            return Err(Error::FileNotFilledUp(m));
        }
        proof {
            let nn = chunk_count(self.size as nat, self.chunk_size as nat);
            if !is_complete(self@) {
                let missing = choose|i: int| 0 <= i < nn && !#[trigger] self.written@.contains_key(i);
                lemma_missing_bounds_count(self.written@, nn, missing);
            }
        }
        self.phase = Phase::Finished;
        Ok(())
    }

    /// Leaves the writing stage for good without finishing. Returns whether the file is now
    /// to be deleted: true on the first call while writing, false once the session was
    /// finished or cancelled before.
    pub fn cancel(&mut self) -> (r: bool)
        requires
            old(self).wf(),
        ensures
            final(self).wf(),
            final(self).spec_token() == old(self).spec_token(),
            final(self).spec_name() == old(self).spec_name(),
            final(self).spec_path() == old(self).spec_path(),
            r == (old(self)@.phase == Phase::Writing),
            r ==> final(self)@ == (UploadView { phase: Phase::Cancelled, ..old(self)@ }),
            !r ==> final(self)@ == old(self)@,
    {
        if self.phase == Phase::Writing {
            self.phase = Phase::Cancelled;
            true
        } else {
            false
        }
    }
}

} // verus!
