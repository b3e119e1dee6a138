//! Chunk ingestion: accumulating an uploaded byte stream into a single
//! buffer under a hard size ceiling.

use vstd::prelude::*;

verus! {

/// Default ceiling on the cumulative size of one ingested payload: 2 MiB.
pub const DEFAULT_MAX_BYTES: usize = 2 * 1024 * 1024;

/// The size ceiling for one ingestion run, fixed at configuration time and
/// shared read-only across requests.
#[derive(Clone, Copy, PartialEq, Eq, Structural, Debug)]
pub struct SizeLimit {
    pub max_bytes: usize,
}

impl Default for SizeLimit {
    /// The process-wide default ceiling.
    fn default() -> (r: SizeLimit)
        ensures
            r.max_bytes == DEFAULT_MAX_BYTES,
    {
        SizeLimit { max_bytes: DEFAULT_MAX_BYTES }
    }
}

impl SizeLimit {
    /// Whether a payload of `n` bytes in total is within this ceiling.
    pub fn admits(&self, n: usize) -> (r: bool)
        ensures
            r == (n <= self.max_bytes),
    {
        n <= self.max_bytes
    }
}

/// One unit of an uploaded byte stream, as the transport hands it over:
/// either a piece of the payload or a read that failed mid-stream.
pub enum Chunk {
    Bytes(Vec<u8>),
    ReadError,
}

/// Why an ingestion run was rejected.
#[derive(Clone, Copy, PartialEq, Eq, Structural, Debug)]
pub enum IngestError {
    /// The cumulative size would have exceeded the ceiling.
    TooLarge,
    /// The transport reported a failed read mid-stream.
    ReadFailed,
    /// No payload field was present at all. The boundary layer raises this;
    /// `ingest` itself never does, since an empty chunk sequence is a valid
    /// zero-byte payload.
    NoPayload,
}

/// The bytes accumulated for one request; created per ingestion run, consumed
/// once by deduplication, never shared between requests.
pub struct ByteBuffer {
    bytes: Vec<u8>,
}

impl View for ByteBuffer {
    type V = Seq<u8>;

    closed spec fn view(&self) -> Seq<u8> {
        self.bytes@
    }
}

impl ByteBuffer {
    /// The accumulated bytes.
    pub fn as_bytes(&self) -> (r: &Vec<u8>)
        ensures
            r@ == self@,
    {
        &self.bytes
    }

    /// How many bytes were accumulated.
    pub fn len(&self) -> (n: usize)
        ensures
            n == self@.len(),
    {
        self.bytes.len()
    }
}

/// The payload bytes of a chunk; the empty sequence for a failed read.
pub open spec fn chunk_bytes(c: Chunk) -> Seq<u8> {
    match c {
        Chunk::Bytes(b) => b@,
        Chunk::ReadError => Seq::empty(),
    }
}

/// What ingestion yields on `chunks` when `acc` has already been
/// accumulated: chunks are appended in delivery order until one fails to
/// read or would push the total past `limit`, each of which aborts the run
/// at once.
pub open spec fn ingest_from(chunks: Seq<Chunk>, limit: int, acc: Seq<u8>) -> Result<
    Seq<u8>,
    IngestError,
>
    decreases chunks.len(),
{
    if chunks.len() == 0 {
        Ok(acc)
    } else {
        match chunks[0] {
            Chunk::ReadError => Err(IngestError::ReadFailed),
            Chunk::Bytes(b) => if acc.len() + b@.len() > limit {
                Err(IngestError::TooLarge)
            } else {
                ingest_from(chunks.drop_first(), limit, acc + b@)
            },
        }
    }
}

/// What ingestion yields on `chunks` starting from an empty buffer.
pub open spec fn ingest_spec(chunks: Seq<Chunk>, limit: int) -> Result<Seq<u8>, IngestError> {
    ingest_from(chunks, limit, Seq::empty())
}

/// Accumulates one payload chunk by chunk, so a transport can hand chunks
/// over as they arrive — without knowing the total length upfront — and stop
/// reading the moment one is refused.
pub struct Ingestor {
    limit: SizeLimit,
    bytes: Vec<u8>,
    failed: Option<IngestError>,
}

impl Ingestor {
    /// The ceiling this ingestor enforces.
    pub closed spec fn spec_limit(&self) -> int {
        self.limit.max_bytes as int
    }

    /// The bytes accepted so far, in delivery order.
    pub closed spec fn contents(&self) -> Seq<u8> {
        self.bytes@
    }

    /// The failure that ended the stream, if one has occurred.
    pub closed spec fn failure(&self) -> Option<IngestError> {
        self.failed
    }

    /// Well-formedness: the accumulated bytes never exceed the ceiling.
    pub closed spec fn wf(&self) -> bool {
        self.bytes@.len() <= self.limit.max_bytes
    }

    /// A fresh ingestor for one request, holding nothing yet.
    pub fn new(limit: &SizeLimit) -> (r: Ingestor)
        ensures
            r.wf(),
            r.spec_limit() == limit.max_bytes,
            r.contents() == Seq::<u8>::empty(),
            r.failure() is None,
    {
        Ingestor { limit: *limit, bytes: Vec::new(), failed: None }
    }

    /// Feeds the next unit of the stream. A failed read, or a chunk that
    /// would push the total past the ceiling, is refused without being
    /// appended; after the first refusal every later push reports that same
    /// failure and the contents never change again.
    pub fn push(&mut self, chunk: &Chunk) -> (r: Result<(), IngestError>)
        requires
            old(self).wf(),
        ensures
            final(self).wf(),
            final(self).spec_limit() == old(self).spec_limit(),
            match r {
                Ok(()) => {
                    &&& old(self).failure() is None
                    &&& final(self).failure() is None
                    &&& chunk is Bytes
                    &&& old(self).contents().len() + chunk_bytes(*chunk).len() <= old(
                        self,
                    ).spec_limit()
                    &&& final(self).contents() == old(self).contents() + chunk_bytes(*chunk)
                },
                Err(e) => {
                    &&& final(self).contents() == old(self).contents()
                    &&& final(self).failure() == Some(e)
                    &&& match old(self).failure() {
                        Some(e0) => e == e0,
                        None => (chunk is ReadError && e == IngestError::ReadFailed) || (
                        chunk is Bytes && old(self).contents().len() + chunk_bytes(*chunk).len()
                            > old(self).spec_limit() && e == IngestError::TooLarge),
                    }
                },
            },
    {
        if let Some(e) = self.failed {
            return Err(e);
        }
        match chunk {
            Chunk::ReadError => {
                self.failed = Some(IngestError::ReadFailed);
                Err(IngestError::ReadFailed)
            },
            Chunk::Bytes(data) => {
                if data.len() > self.limit.max_bytes - self.bytes.len() {
                    self.failed = Some(IngestError::TooLarge);
                    Err(IngestError::TooLarge)
                } else {
                    let ghost before: Seq<u8> = self.bytes@;
                    let mut k: usize = 0;
                    while k < data.len()
                        invariant
                            k <= data.len(),
                            self.bytes@ == before + data@.take(k as int),
                            self.limit == old(self).limit,
                            self.failed == old(self).failed,
                        decreases data.len() - k,
                    {
                        proof {
                            assert(before + data@.take(k as int + 1) =~= (before + data@.take(
                                k as int,
                            )).push(data@[k as int]));
                        }
                        self.bytes.push(data[k]);
                        k += 1;
                    }
                    proof {
                        assert(self.bytes@ =~= before + data@);
                    }
                    Ok(())
                }
            },
        }
    }

    /// Ends the stream: the completed buffer, or the failure that cut the
    /// stream short, in which case no buffer is handed out at all.
    pub fn finish(self) -> (r: Result<ByteBuffer, IngestError>)
        requires
            self.wf(),
        ensures
            match r {
                Ok(buf) => self.failure() is None && buf@ == self.contents() && buf@.len()
                    <= self.spec_limit(),
                Err(e) => self.failure() == Some(e),
            },
    {
        match self.failed {
            Some(e) => Err(e),
            None => Ok(ByteBuffer { bytes: self.bytes }),
        }
    }
}

/// Accumulates the chunks of one payload, in delivery order, into a fresh
/// buffer.
///
/// The first failed read aborts the run with [`IngestError::ReadFailed`]; a
/// chunk that would push the cumulative size past the ceiling aborts it with
/// [`IngestError::TooLarge`] without appending that chunk. Either way no
/// buffer is retained. An empty chunk sequence succeeds with an empty buffer.
pub fn ingest(chunks: Vec<Chunk>, limit: &SizeLimit) -> (r: Result<ByteBuffer, IngestError>)
    ensures
        match r {
            Ok(buf) => ingest_spec(chunks@, limit.max_bytes as int) == Ok::<
                Seq<u8>,
                IngestError,
            >(buf@) && buf@.len() <= limit.max_bytes,
            Err(e) => ingest_spec(chunks@, limit.max_bytes as int) == Err::<Seq<u8>, IngestError>(
                e,
            ),
        },
{
    let ghost l: int = limit.max_bytes as int;
    let mut ing = Ingestor::new(limit);
    let mut i: usize = 0;
    proof {
        assert(chunks@.skip(0) =~= chunks@);
    }
    while i < chunks.len()
        invariant
            i <= chunks.len(),
            l == limit.max_bytes as int,
            ing.wf(),
            ing.failure() is None,
            ing.spec_limit() == l,
            ingest_spec(chunks@, l) == ingest_from(chunks@.skip(i as int), l, ing.contents()),
        decreases chunks.len() - i,
    {
        proof {
            assert(chunks@.skip(i as int)[0] == chunks@[i as int]);
            assert(chunks@.skip(i as int).drop_first() =~= chunks@.skip(i as int + 1));
        }
        if let Err(e) = ing.push(&chunks[i]) {
            return Err(e);
        }
        i += 1;
    }
    proof {
        assert(chunks@.skip(chunks@.len() as int) =~= Seq::<Chunk>::empty());
    }
    match ing.finish() {
        Ok(buf) => Ok(buf),
        Err(e) => {
            proof {
                assert(false);
            }
            Err(e)
        },
    }
}

/// Whether every chunk of the sequence is payload data (no failed reads).
pub open spec fn all_data(chunks: Seq<Chunk>) -> bool {
    forall|i: int| 0 <= i < chunks.len() ==> chunks[i] is Bytes
}

/// The total number of payload bytes in a chunk sequence.
pub open spec fn total_len(chunks: Seq<Chunk>) -> int
    decreases chunks.len(),
{
    if chunks.len() == 0 {
        0
    } else {
        chunk_bytes(chunks[0]).len() + total_len(chunks.drop_first())
    }
}

/// The concatenation of all payload bytes, in delivery order.
pub open spec fn concat_bytes(chunks: Seq<Chunk>) -> Seq<u8>
    decreases chunks.len(),
{
    if chunks.len() == 0 {
        Seq::empty()
    } else {
        chunk_bytes(chunks[0]) + concat_bytes(chunks.drop_first())
    }
}

proof fn lemma_total_len_nonneg(chunks: Seq<Chunk>)
    ensures
        total_len(chunks) >= 0,
    decreases chunks.len(),
{
    if chunks.len() > 0 {
        lemma_total_len_nonneg(chunks.drop_first());
    }
}

proof fn lemma_ingest_from_within(chunks: Seq<Chunk>, limit: int, acc: Seq<u8>)
    requires
        all_data(chunks),
        acc.len() + total_len(chunks) <= limit,
    ensures
        ingest_from(chunks, limit, acc) == Ok::<Seq<u8>, IngestError>(acc + concat_bytes(chunks)),
    decreases chunks.len(),
{
    if chunks.len() == 0 {
        assert(acc + concat_bytes(chunks) =~= acc);
    } else {
        let rest = chunks.drop_first();
        let b = chunk_bytes(chunks[0]);
        lemma_total_len_nonneg(rest);
        assert(all_data(rest)) by {
            assert(forall|i: int|
                0 <= i < rest.len() ==> rest[i] == chunks[i + 1] && chunks[i + 1] is Bytes);
        }
        lemma_ingest_from_within(rest, limit, acc + b);
        assert((acc + b) + concat_bytes(rest) =~= acc + concat_bytes(chunks));
    }
}

/// Law: when every chunk is readable and the total size is within the
/// ceiling, ingestion succeeds and yields exactly the concatenation of the
/// chunks, in delivery order.
pub proof fn lemma_ingest_within_limit(chunks: Seq<Chunk>, limit: int)
    requires
        all_data(chunks),
        total_len(chunks) <= limit,
    ensures
        ingest_spec(chunks, limit) == Ok::<Seq<u8>, IngestError>(concat_bytes(chunks)),
{
    lemma_ingest_from_within(chunks, limit, Seq::empty());
    assert(Seq::<u8>::empty() + concat_bytes(chunks) =~= concat_bytes(chunks));
}

proof fn lemma_ingest_from_too_large(chunks: Seq<Chunk>, limit: int, acc: Seq<u8>, k: int)
    requires
        0 <= k < chunks.len(),
        forall|i: int| 0 <= i <= k ==> chunks[i] is Bytes,
        acc.len() + total_len(chunks.take(k)) <= limit,
        acc.len() + total_len(chunks.take(k + 1)) > limit,
    ensures
        ingest_from(chunks, limit, acc) == Err::<Seq<u8>, IngestError>(IngestError::TooLarge),
    decreases k,
{
    let b = chunk_bytes(chunks[0]);
    assert(chunks.take(k + 1)[0] == chunks[0]);
    assert(chunks.take(k + 1).drop_first() =~= chunks.drop_first().take(k));
    if k == 0 {
        assert(total_len(chunks.take(0)) == 0);
        assert(total_len(chunks.drop_first().take(0)) == 0);
        assert(acc.len() + b.len() > limit);
    } else {
        assert(chunks.take(k)[0] == chunks[0]);
        assert(chunks.take(k).drop_first() =~= chunks.drop_first().take(k - 1));
        lemma_total_len_nonneg(chunks.drop_first().take(k - 1));
        assert(acc.len() + b.len() <= limit);
        let rest = chunks.drop_first();
        assert(forall|i: int|
            0 <= i <= k - 1 ==> rest[i] == chunks[i + 1] && chunks[i + 1] is Bytes);
        lemma_ingest_from_too_large(rest, limit, acc + b, k - 1);
    }
}

/// Law: if the cumulative size first exceeds the ceiling at chunk `k`,
/// ingestion fails with [`IngestError::TooLarge`]. The result carries no
/// buffer at all, so no byte of chunk `k` or of any later chunk is retained.
pub proof fn lemma_ingest_too_large(chunks: Seq<Chunk>, limit: int, k: int)
    requires
        0 <= k < chunks.len(),
        forall|i: int| 0 <= i <= k ==> chunks[i] is Bytes,
        total_len(chunks.take(k)) <= limit,
        total_len(chunks.take(k + 1)) > limit,
    ensures
        ingest_spec(chunks, limit) == Err::<Seq<u8>, IngestError>(IngestError::TooLarge),
{
    lemma_ingest_from_too_large(chunks, limit, Seq::empty(), k);
}

/// Whether two chunk sequences have the same shape: the same length, failed
/// reads in the same places, and data chunks of the same sizes — the byte
/// values themselves may differ arbitrarily.
pub open spec fn same_shape(a: Seq<Chunk>, b: Seq<Chunk>) -> bool {
    &&& a.len() == b.len()
    &&& forall|i: int|
        0 <= i < a.len() ==> {
            &&& (a[i] is Bytes <==> b[i] is Bytes)
            &&& (a[i] is Bytes ==> chunk_bytes(a[i]).len() == chunk_bytes(b[i]).len())
        }
}

proof fn lemma_ingest_from_blind(a: Seq<Chunk>, b: Seq<Chunk>, limit: int, acc_a: Seq<u8>, acc_b: Seq<u8>)
    requires
        same_shape(a, b),
        acc_a.len() == acc_b.len(),
    ensures
        (ingest_from(a, limit, acc_a) is Ok) == (ingest_from(b, limit, acc_b) is Ok),
        ingest_from(a, limit, acc_a) matches Err(e) ==> ingest_from(b, limit, acc_b) == Err::<
            Seq<u8>,
            IngestError,
        >(e),
    decreases a.len(),
{
    if a.len() > 0 {
        assert(a.drop_first().len() == b.drop_first().len());
        assert(forall|i: int|
            0 <= i < a.drop_first().len() ==> a.drop_first()[i] == a[i + 1] && b.drop_first()[i]
                == b[i + 1]);
        match (a[0], b[0]) {
            (Chunk::Bytes(x), Chunk::Bytes(y)) => {
                if acc_a.len() + x@.len() <= limit {
                    lemma_ingest_from_blind(
                        a.drop_first(),
                        b.drop_first(),
                        limit,
                        acc_a + x@,
                        acc_b + y@,
                    );
                }
            },
            _ => {},
        }
    }
}

/// Law: whether ingestion succeeds, and which error it reports when it does
/// not, depends only on the shape of the stream — never on the byte values.
/// In particular a payload that is not valid text is ingested exactly like a
/// valid one of the same size; no byte value can make ingestion fail.
pub proof fn lemma_ingest_blind_to_content(a: Seq<Chunk>, b: Seq<Chunk>, limit: int)
    requires
        same_shape(a, b),
    ensures
        (ingest_spec(a, limit) is Ok) == (ingest_spec(b, limit) is Ok),
        ingest_spec(a, limit) matches Err(e) ==> ingest_spec(b, limit) == Err::<
            Seq<u8>,
            IngestError,
        >(e),
{
    lemma_ingest_from_blind(a, b, limit, Seq::empty(), Seq::empty());
}

} // verus!
