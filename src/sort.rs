//! The sort orchestrator: cuts the input into runs, sorts each on a worker
//! pool, spills it through a chunk codec and merges the runs back.
use crate::buffer::{ChunkBuffer, ChunkBufferBuilder, LimitedBufferBuilder};
use crate::chunk::{ExternalChunk, ExternalChunkError};
use crate::merger::{
    classes, drain_items, init_heads, lemma_class_flatten, lemma_sum_ms_flatten, lemma_merge_sorted, lemma_merge_stable, merge_ready, merge_step, parts, pending, sum_ms, BinaryHeapMerger,
};
use crate::order::{equal_items, equiv_to, is_stable_sort, sorted_by, Compare, Natural};
use crate::source::{all_ok, no_errors, ok_values, Source};
use rayon::slice::ParallelSliceMut;
use std::marker::PhantomData;
use std::path::Path;
use vstd::multiset::Multiset;
use vstd::prelude::*;

verus! {

/// `rayon::ThreadPool`, the workers that sort runs.
#[verifier::external_type_specification]
#[verifier::external_body]
pub struct ExThreadPool(rayon::ThreadPool);

/// `rayon::ThreadPoolBuildError`, carried through unread.
#[verifier::external_type_specification]
#[verifier::external_body]
pub struct ExThreadPoolBuildError(rayon::ThreadPoolBuildError);

/// `std::path::Path`, carried through unread.
#[verifier::external_type_specification]
#[verifier::external_body]
pub struct ExPath(std::path::Path);

/// Why a sort failed.
pub enum SortError<S, D, I> {
    /// The temporary directory could not be created.
    TempDir(std::io::Error),
    /// The worker pool could not be started.
    ThreadPoolBuildError(rayon::ThreadPoolBuildError),
    /// Writing or reading a run failed.
    IO(std::io::Error),
    /// An item could not be encoded.
    SerializationError(S),
    /// An item could not be decoded.
    DeserializationError(D),
    /// The input yielded an error.
    InputError(I),
}

/// The position of the first error in `s`; `s.len()` if there is none.
pub open spec fn first_error<T, E>(s: Seq<Result<T, E>>) -> int
    decreases s.len(),
{
    if s.len() == 0 || s[0] is Err {
        0
    } else {
        1 + first_error(s.drop_first())
    }
}

/// `ps` are cut where a buffer of `b` cuts them: every piece is made full
/// by its last item and by none before, except that the last piece need not
/// be full.
pub open spec fn cut_by<T, B: ChunkBufferBuilder<T>>(b: B, ps: Seq<Seq<T>>) -> bool {
    &&& forall|i: int, m: int|
        0 <= i < ps.len() && 1 <= m < ps[i].len() ==> !b.full_with(#[trigger] ps[i].take(m))
    &&& forall|i: int| 0 <= i < ps.len() - 1 ==> b.full_with(#[trigger] ps[i])
}

/// Every piece is made full by its last item and by none before.
pub open spec fn sealed_by<T, B: ChunkBufferBuilder<T>>(b: B, ps: Seq<Seq<T>>) -> bool {
    &&& forall|i: int, m: int|
        0 <= i < ps.len() && 1 <= m < ps[i].len() ==> !b.full_with(#[trigger] ps[i].take(m))
    &&& forall|i: int| 0 <= i < ps.len() ==> b.full_with(#[trigger] ps[i])
}

/// `runs` hold, in order, the stable sorts of `ps`, nonempty pieces that
/// make up `xs`, cut where a buffer of `b` is full.
pub open spec fn pieces_fit<T, E, C: Compare<T>, B: ChunkBufferBuilder<T>>(
    c: C,
    b: B,
    runs: Seq<Seq<Result<T, E>>>,
    xs: Seq<T>,
    ps: Seq<Seq<T>>,
) -> bool {
    &&& ps.flatten() == xs
    &&& cut_by(b, ps)
    &&& ps.len() == runs.len()
    &&& forall|i: int|
        0 <= i < ps.len() ==> {
            &&& ps[i].len() > 0
            &&& #[trigger] runs[i] == all_ok::<T, E>(ok_values(runs[i]))
            &&& is_stable_sort(c, ok_values(runs[i]), ps[i])
        }
}

/// `runs` hold, in order, the stable sorts of the consecutive nonempty
/// pieces that a buffer of `b` cuts `xs` into.
pub open spec fn runs_of<T, E, C: Compare<T>, B: ChunkBufferBuilder<T>>(
    c: C,
    b: B,
    runs: Seq<Seq<Result<T, E>>>,
    xs: Seq<T>,
) -> bool {
    exists|ps: Seq<Seq<T>>| #[trigger] pieces_fit(c, b, runs, xs, ps)
}

/// Relies on rayon's `ParallelSliceMut::par_sort_by`, a stable sort under
/// a comparator that is a total order.
#[verifier::external_body]
fn par_sort<T: Send, F: Compare<T> + Sync>(v: &mut Vec<T>, compare: &F)
    ensures
        is_stable_sort(*compare, final(v)@, old(v)@),
{
    v.par_sort_by(|a, b| compare.compare(a, b))
}

/// Sorts `v` stably.
fn sort_run<T: Send, F: Compare<T> + Sync>(v: Vec<T>, compare: &F) -> (r: Vec<T>)
    ensures
        is_stable_sort(*compare, r@, v@),
{
    let mut v = v;
    par_sort(&mut v, compare);
    v
}

/// Relies on rayon's `ThreadPool::install`: runs the closure on the pool
/// and hands back what it returned.
#[verifier::external_body]
fn sort_in_pool<T: Send, F: Compare<T> + Sync>(
    pool: &rayon::ThreadPool,
    v: Vec<T>,
    compare: &F,
) -> (r: Vec<T>)
    ensures
        is_stable_sort(*compare, r@, v@),
{
    pool.install(move || sort_run(v, compare))
}

/// Relies on rayon's `ThreadPoolBuilder`: `new`, then `num_threads`, where
/// 0 lets rayon pick the count, then `build`.  The builder's spawn type is
/// private to rayon, so the three calls stand together.
#[verifier::external_body]
fn build_pool(threads: usize) -> Result<rayon::ThreadPool, rayon::ThreadPoolBuildError> {
    rayon::ThreadPoolBuilder::new().num_threads(threads).build()
}

/// Relies on `tempfile::tempdir`: a fresh directory in the system's
/// temporary location.
#[verifier::external_body]
fn new_tmp_dir() -> std::io::Result<tempfile::TempDir> {
    tempfile::tempdir()
}

/// Relies on `tempfile::tempdir_in`: a fresh directory inside `parent`.
#[verifier::external_body]
fn new_tmp_dir_in(parent: &Path) -> std::io::Result<tempfile::TempDir> {
    tempfile::tempdir_in(parent)
}

/// Relies on `From<&Path> for Box<Path>`: an owned copy of the path.
#[verifier::external_body]
fn boxed_path(path: &Path) -> Box<Path> {
    Box::from(path)
}

/// The settings of an [`ExternalSorter`], gathered before it is built.
pub struct ExternalSorterBuilder<T, E, C, B = LimitedBufferBuilder> {
    /// Worker threads for sorting runs; rayon's choice where unset.
    pub threads_number: Option<usize>,
    /// Where the temporary directory goes; the system's location where unset.
    pub tmp_dir: Option<Box<Path>>,
    /// Size of the I/O buffers of each run.
    pub rw_buf_size: Option<usize>,
    pub buffer_builder: B,
    pub external_chunk_type: PhantomData<C>,
    pub item_type: PhantomData<T>,
    pub input_error_type: PhantomData<E>,
}

impl<T, E, C, B: ChunkBufferBuilder<T>> Default for ExternalSorterBuilder<T, E, C, B> {
    fn default() -> (r: Self)
        ensures
            r.threads_number is None,
            r.tmp_dir is None,
            r.rw_buf_size is None,
    {
        ExternalSorterBuilder {
            threads_number: None,
            tmp_dir: None,
            rw_buf_size: None,
            buffer_builder: B::default(),
            external_chunk_type: PhantomData,
            item_type: PhantomData,
            input_error_type: PhantomData,
        }
    }
}

impl<T: Send, E, C: ExternalChunk<T>, B: ChunkBufferBuilder<T>> ExternalSorterBuilder<T, E, C, B> {
    /// A builder with every setting at its default.
    pub fn new() -> (r: Self)
        ensures
            r.threads_number is None,
            r.tmp_dir is None,
            r.rw_buf_size is None,
    {
        Self::default()
    }

    /// Starts the worker pool and creates the temporary directory.
    pub fn build(self) -> (r: Result<
        ExternalSorter<T, E, C, B>,
        SortError<C::SerializationError, C::Error, E>,
    >)
        ensures
            r is Ok ==> r->Ok_0.buffer_builder == self.buffer_builder && r->Ok_0.rw_buf_size
                == self.rw_buf_size,
            r is Err ==> r->Err_0 is ThreadPoolBuildError || r->Err_0 is TempDir,
    {
        match self.tmp_dir {
            Some(dir) => ExternalSorter::new(
                self.threads_number,
                Some(&*dir),
                self.buffer_builder,
                self.rw_buf_size,
            ),
            None => ExternalSorter::new(
                self.threads_number,
                None,
                self.buffer_builder,
                self.rw_buf_size,
            ),
        }
    }

    pub fn with_threads_number(self, threads_number: usize) -> (r: Self)
        ensures
            r == (Self { threads_number: Some(threads_number), ..self }),
    {
        let mut b = self;
        b.threads_number = Some(threads_number);
        b
    }

    pub fn with_tmp_dir(self, path: &Path) -> (r: Self)
        ensures
            r.tmp_dir is Some,
            r.threads_number == self.threads_number,
            r.rw_buf_size == self.rw_buf_size,
            r.buffer_builder == self.buffer_builder,
    {
        let mut b = self;
        b.tmp_dir = Some(boxed_path(path));
        b
    }

    pub fn with_buffer(self, buffer_builder: B) -> (r: Self)
        ensures
            r == (Self { buffer_builder, ..self }),
    {
        let mut b = self;
        b.buffer_builder = buffer_builder;
        b
    }

    pub fn with_rw_buf_size(self, buf_size: usize) -> (r: Self)
        ensures
            r == (Self { rw_buf_size: Some(buf_size), ..self }),
    {
        let mut b = self;
        b.rw_buf_size = Some(buf_size);
        b
    }
}

/// Sorts inputs of any length in runs that fit a buffer, spilled through the
/// chunk codec `C` into its own temporary directory.  Dropping the sorter,
/// or the merger it returned, removes the directory.
pub struct ExternalSorter<T, E, C, B = LimitedBufferBuilder> {
    pub thread_pool: rayon::ThreadPool,
    pub tmp_dir: tempfile::TempDir,
    pub buffer_builder: B,
    pub rw_buf_size: Option<usize>,
    pub external_chunk_type: PhantomData<C>,
    pub item_type: PhantomData<T>,
    pub input_error_type: PhantomData<E>,
}

impl<T: Send, E, C: ExternalChunk<T>, B: ChunkBufferBuilder<T>> ExternalSorter<T, E, C, B> {
    /// Starts a pool of `threads_number` workers (rayon's choice where
    /// unset), then creates a fresh directory in `tmp_path` (the system's
    /// temporary location where unset).
    pub fn new(
        threads_number: Option<usize>,
        tmp_path: Option<&Path>,
        buffer_builder: B,
        rw_buf_size: Option<usize>,
    ) -> (r: Result<Self, SortError<C::SerializationError, C::Error, E>>)
        ensures
            r is Ok ==> r->Ok_0.buffer_builder == buffer_builder && r->Ok_0.rw_buf_size
                == rw_buf_size,
            r is Err ==> r->Err_0 is ThreadPoolBuildError || r->Err_0 is TempDir,
    {
        let thread_pool = match Self::init_thread_pool(threads_number) {
            Ok(pool) => pool,
            Err(e) => return Err(e),
        };
        let tmp_dir = match Self::init_tmp_directory(tmp_path) {
            Ok(dir) => dir,
            Err(e) => return Err(e),
        };
        Ok(ExternalSorter {
            thread_pool,
            tmp_dir,
            buffer_builder,
            rw_buf_size,
            external_chunk_type: PhantomData,
            item_type: PhantomData,
            input_error_type: PhantomData,
        })
    }

    fn init_thread_pool(threads_number: Option<usize>) -> (r: Result<
        rayon::ThreadPool,
        SortError<C::SerializationError, C::Error, E>,
    >)
        ensures
            r is Err ==> r->Err_0 is ThreadPoolBuildError,
    {
        let threads: usize = match threads_number {
            Some(n) => n,
            None => 0,
        };
        match build_pool(threads) {
            Ok(pool) => Ok(pool),
            Err(e) => Err(SortError::ThreadPoolBuildError(e)),
        }
    }

    fn init_tmp_directory(tmp_path: Option<&Path>) -> (r: Result<
        tempfile::TempDir,
        SortError<C::SerializationError, C::Error, E>,
    >)
        ensures
            r is Err ==> r->Err_0 is TempDir,
    {
        let created = match tmp_path {
            Some(parent) => new_tmp_dir_in(parent),
            None => new_tmp_dir(),
        };
        match created {
            Ok(dir) => Ok(dir),
            Err(e) => Err(SortError::TempDir(e)),
        }
    }

    /// Sorts a full buffer on the pool and spills it as a run.
    fn create_chunk<F: Compare<T> + Sync>(&self, buffer: B::Buffer, compare: &F) -> (r: Result<
        C,
        SortError<C::SerializationError, C::Error, E>,
    >)
        requires
            buffer.wf(),
        ensures
            r is Ok ==> {
                &&& r->Ok_0.rest() == all_ok::<T, C::Error>(ok_values(r->Ok_0.rest()))
                &&& is_stable_sort(*compare, ok_values(r->Ok_0.rest()), buffer.items())
            },
            r is Err ==> r->Err_0 is IO || r->Err_0 is SerializationError,
    {
        let items = buffer.into_vec();
        let sorted = sort_in_pool(&self.thread_pool, items, compare);
        let ghost s = sorted@;
        match C::build(&self.tmp_dir, sorted, self.rw_buf_size) {
            Ok(chunk) => {
                assert(ok_values(all_ok::<T, C::Error>(s)) =~= s);
                Ok(chunk)
            },
            Err(ExternalChunkError::IO(e)) => Err(SortError::IO(e)),
            Err(ExternalChunkError::SerializationError(e)) => Err(SortError::SerializationError(e)),
        }
    }

    /// Sorts the input under its items' natural order.
    pub fn sort<I: Source<T, Error = E>>(&self, input: I) -> (r: Result<
        BinaryHeapMerger<T, Natural, C>,
        SortError<C::SerializationError, C::Error, E>,
    >) where Natural: Compare<T>
        ensures
            sort_outcome(Natural, self.buffer_builder, input.rest(), r),
    {
        self.sort_by(input, Natural)
    }

    /// Sorts the input under `compare`.  Items are read in order and pushed
    /// into a buffer; each time the buffer is full it is sorted stably and
    /// spilled as a run, and so is what is left at the end.  The result is
    /// a merger over the runs, in the order they were made.
    pub fn sort_by<I: Source<T, Error = E>, F: Compare<T> + Sync + Send>(
        &self,
        input: I,
        compare: F,
    ) -> (r: Result<BinaryHeapMerger<T, F, C>, SortError<C::SerializationError, C::Error, E>>)
        ensures
            sort_outcome(compare, self.buffer_builder, input.rest(), r),
    {
        let ghost all = input.rest();
        let ghost b = self.buffer_builder;
        let ghost mut n: int = 0;
        let ghost mut pieces: Seq<Seq<T>> = Seq::empty();
        let ghost mut first_cut: int = 0;
        let mut src = input;
        let mut chunk_buf = self.buffer_builder.build();
        let mut external_chunks: Vec<C> = Vec::new();
        loop
            invariant
                0 <= n <= all.len(),
                src.rest() == all.skip(n),
                all == input.rest(),
                b == self.buffer_builder,
                forall|i: int| 0 <= i < n ==> #[trigger] all[i] is Ok,
                pieces.flatten() + chunk_buf.items() == ok_values(all.take(n)),
                chunk_buf.wf(),
                forall|s: Seq<T>| #[trigger] chunk_buf.full_with(s) == b.full_with(s),
                forall|m: int|
                    1 <= m <= chunk_buf.items().len() ==> !b.full_with(
                        #[trigger] chunk_buf.items().take(m),
                    ),
                sealed_by(b, pieces),
                pieces.len() > 0 ==> 1 <= first_cut <= n && b.full_with(
                    ok_values(all.take(first_cut)),
                ),
                external_chunks@.len() == pieces.len(),
                chunks_hold(compare, external_chunks@, pieces),
            ensures
                src.rest().len() == 0,
            decreases src.rest().len(),
        {
            let ghost consumed = ok_values(all.take(n));
            let ghost before = chunk_buf.items();
            match src.next() {
                None => {
                    break;
                },
                Some(Err(e)) => {
                    proof {
                        assert(all.skip(n)[0] == all[n]);
                        lemma_first_error_at(all, n);
                    }
                    return Err(SortError::InputError(e));
                },
                Some(Ok(item)) => {
                    proof {
                        assert(all[n] == Ok::<T, E>(item));
                        assert(ok_values(all.take(n + 1)) =~= consumed.push(item));
                        n = n + 1;
                        assert(src.rest() =~= all.skip(n));
                        if before.len() > 0 {
                            assert(before.take(before.len() as int) =~= before);
                        }
                    }
                    chunk_buf.push(item);
                },
            }
            let ghost now = chunk_buf.items();
            assert forall|m: int| 1 <= m < now.len() implies !b.full_with(#[trigger] now.take(m)) by {
                assert(now.take(m) =~= before.take(m));
            }
            assert(now.take(now.len() as int) =~= now);
            if chunk_buf.is_full() {
                let ghost piece = chunk_buf.items();
                assert(all.len() > 0);
                proof {
                    if pieces.len() == 0 {
                        assert(pieces.flatten() =~= Seq::<T>::empty());
                        assert(piece =~= ok_values(all.take(n)));
                    }
                }
                let chunk = match self.create_chunk(chunk_buf, &compare) {
                    Ok(chunk) => chunk,
                    Err(e) => {
                        proof {
                            lemma_first_error_ge(all, n);
                            let m0 = if pieces.len() > 0 {
                                first_cut
                            } else {
                                n
                            };
                            assert(b.full_with(ok_values(all.take(m0))));
                        }
                        return Err(e);
                    },
                };
                let ghost ec = external_chunks@;
                external_chunks.push(chunk);
                chunk_buf = self.buffer_builder.build();
                proof {
                    if pieces.len() == 0 {
                        first_cut = n;
                    }
                    let op = pieces;
                    lemma_chunks_push(compare, ec, op, chunk, piece);
                    lemma_seal(b, op, piece);
                    pieces.lemma_flatten_push(piece);
                    pieces = pieces.push(piece);
                    assert(chunk_buf.items() =~= Seq::<T>::empty());
                    assert(pieces.flatten() + chunk_buf.items() =~= pieces.flatten());
                }
            }
        }
        proof {
            assert(all.take(n) =~= all);
            assert(src.rest().len() == 0);
        }
        if chunk_buf.len() > 0 {
            let ghost piece = chunk_buf.items();
            assert(all.len() > 0) by {
                assert(ok_values(all.take(n)).len() == n);
            }
            proof {
                if pieces.len() == 0 {
                    assert(pieces.flatten() =~= Seq::<T>::empty());
                    assert(piece =~= ok_values(all.take(n)));
                }
            }
            let chunk = match self.create_chunk(chunk_buf, &compare) {
                Ok(chunk) => chunk,
                Err(e) => {
                    proof {
                        lemma_first_error_ge(all, n);
                    }
                    return Err(e);
                },
            };
            let ghost ec = external_chunks@;
            external_chunks.push(chunk);
            proof {
                let op = pieces;
                lemma_chunks_push(compare, ec, op, chunk, piece);
                lemma_cut_last(b, op, piece);
                pieces.lemma_flatten_push(piece);
                pieces = pieces.push(piece);
            }
        } else {
            proof {
                lemma_cut_last(b, pieces, Seq::empty());
            }
        }
        let merger = BinaryHeapMerger::new(external_chunks, compare);
        proof {
            lemma_no_error(all);
            assert(pieces.flatten() == ok_values(all));
            let runs = merger.runs();
            assert forall|i: int| 0 <= i < pieces.len() implies {
                &&& pieces[i].len() > 0
                &&& #[trigger] runs[i] == all_ok::<T, C::Error>(ok_values(runs[i]))
                &&& is_stable_sort(compare, ok_values(runs[i]), pieces[i])
            } by {
                assert(runs[i] == external_chunks@[i].rest());
            }
            assert(pieces_fit(compare, b, runs, ok_values(all), pieces));
        }
        Ok(merger)
    }
}

/// Each spilled run holds, as successes, the stable sort of its nonempty
/// piece of the input.
pub open spec fn chunks_hold<T, F: Compare<T>, C: Source<T>>(c: F, chunks: Seq<C>, pieces: Seq<Seq<T>>) -> bool {
    &&& chunks.len() == pieces.len()
    &&& forall|i: int| 0 <= i < pieces.len() ==> (#[trigger] pieces[i]).len() > 0
    &&& forall|i: int|
        #![trigger chunks[i]]
        0 <= i < pieces.len() ==> {
            &&& chunks[i].rest() == all_ok::<T, C::Error>(ok_values(chunks[i].rest()))
            &&& is_stable_sort(c, ok_values(chunks[i].rest()), pieces[i])
        }
}

proof fn lemma_chunks_push<T, F: Compare<T>, C: Source<T>>(
    c: F,
    chunks: Seq<C>,
    pieces: Seq<Seq<T>>,
    chunk: C,
    piece: Seq<T>,
)
    requires
        chunks_hold(c, chunks, pieces),
        piece.len() > 0,
        chunk.rest() == all_ok::<T, C::Error>(ok_values(chunk.rest())),
        is_stable_sort(c, ok_values(chunk.rest()), piece),
    ensures
        chunks_hold(c, chunks.push(chunk), pieces.push(piece)),
{
    let cs = chunks.push(chunk);
    let ps = pieces.push(piece);
    assert forall|i: int|
        #![trigger cs[i]]
        0 <= i < ps.len() implies {
        &&& cs[i].rest() == all_ok::<T, C::Error>(ok_values(cs[i].rest()))
        &&& is_stable_sort(c, ok_values(cs[i].rest()), ps[i])
    } by {
        if i < pieces.len() {
            assert(cs[i] == chunks[i]);
            assert(chunks[i].rest() == all_ok::<T, C::Error>(ok_values(chunks[i].rest())));
        }
    }
    assert forall|i: int| 0 <= i < ps.len() implies (#[trigger] ps[i]).len() > 0 by {
        if i < pieces.len() {
            assert(ps[i] == pieces[i]);
        }
    }
}

/// What a sort of `input` under `c` with buffers of `b` gives back.  On
/// success the input held no error and the merger has not started: its runs
/// hold the stable sorts of the pieces of the input, cut each time a fresh
/// buffer became full.  An input error is the first one of the input, and
/// it is what comes back whenever it is met before the first buffer is
/// full, since no run has been written then; the codec's errors may come
/// once a run is written; an empty input always succeeds with no run.
pub open spec fn sort_outcome<T, E, F: Compare<T>, B: ChunkBufferBuilder<T>, C: ExternalChunk<T>>(
    c: F,
    b: B,
    input: Seq<Result<T, E>>,
    r: Result<BinaryHeapMerger<T, F, C>, SortError<C::SerializationError, C::Error, E>>,
) -> bool {
    &&& r is Ok ==> {
        let m = r->Ok_0;
        &&& first_error(input) == input.len()
        &&& m.wf()
        &&& m.started == 0
        &&& m.heads@ == Seq::new(m.chunks@.len(), |i: int| None::<T>)
        &&& m.compare == c
        &&& runs_of(c, b, m.runs(), ok_values(input))
    }
    &&& (first_error(input) < input.len() && forall|m: int|
        1 <= m <= first_error(input) ==> !b.full_with(#[trigger] ok_values(input.take(m))))
        ==> (r is Err && r->Err_0 is InputError && input[first_error(input)] == Err::<T, E>(
        r->Err_0->InputError_0,
    ))
    &&& r is Err ==> {
        ||| r->Err_0 is IO
        ||| r->Err_0 is SerializationError
        ||| (r->Err_0 is InputError && first_error(input) < input.len() && input[first_error(input)]
            == Err::<T, E>(r->Err_0->InputError_0))
    }
    &&& input.len() == 0 ==> r is Ok && r->Ok_0.chunks@.len() == 0
}

proof fn lemma_seal<T, B: ChunkBufferBuilder<T>>(b: B, ps: Seq<Seq<T>>, p: Seq<T>)
    requires
        sealed_by(b, ps),
        b.full_with(p),
        forall|m: int| 1 <= m < p.len() ==> !b.full_with(#[trigger] p.take(m)),
    ensures
        sealed_by(b, ps.push(p)),
{
    let qs = ps.push(p);
    assert forall|i: int, m: int|
        0 <= i < qs.len() && 1 <= m < qs[i].len() implies !b.full_with(#[trigger] qs[i].take(m)) by {
        if i < ps.len() {
            assert(qs[i] == ps[i]);
        }
    }
    assert forall|i: int| 0 <= i < qs.len() implies b.full_with(#[trigger] qs[i]) by {
        if i < ps.len() {
            assert(qs[i] == ps[i]);
        }
    }
}

/// Sealed pieces, with `p` after them where `p` is not empty, are cut where
/// the buffer was full.
proof fn lemma_cut_last<T, B: ChunkBufferBuilder<T>>(b: B, ps: Seq<Seq<T>>, p: Seq<T>)
    requires
        sealed_by(b, ps),
        forall|m: int| 1 <= m < p.len() ==> !b.full_with(#[trigger] p.take(m)),
    ensures
        cut_by(b, ps),
        cut_by(b, ps.push(p)),
{
    let qs = ps.push(p);
    assert forall|i: int, m: int|
        0 <= i < qs.len() && 1 <= m < qs[i].len() implies !b.full_with(#[trigger] qs[i].take(m)) by {
        if i < ps.len() {
            assert(qs[i] == ps[i]);
        }
    }
    assert forall|i: int| 0 <= i < qs.len() - 1 implies b.full_with(#[trigger] qs[i]) by {
        assert(qs[i] == ps[i]);
    }
}

proof fn lemma_first_error_ge<T, E>(s: Seq<Result<T, E>>, n: int)
    requires
        0 <= n <= s.len(),
        forall|i: int| 0 <= i < n ==> #[trigger] s[i] is Ok,
    ensures
        first_error(s) >= n,
    decreases s.len(),
{
    if s.len() > 0 && s[0] is Ok {
        let t = s.drop_first();
        let k = if n > 0 {
            n - 1
        } else {
            0
        };
        assert forall|i: int| 0 <= i < k implies #[trigger] t[i] is Ok by {
            assert(s[i + 1] is Ok);
        }
        lemma_first_error_ge(t, k);
    }
}

proof fn lemma_first_error_at<T, E>(s: Seq<Result<T, E>>, n: int)
    requires
        0 <= n < s.len(),
        s[n] is Err,
        forall|i: int| 0 <= i < n ==> #[trigger] s[i] is Ok,
    ensures
        first_error(s) == n,
    decreases n,
{
    if n > 0 {
        assert(s[0] is Ok);
        let t = s.drop_first();
        assert forall|i: int| 0 <= i < n - 1 implies #[trigger] t[i] is Ok by {
            assert(s[i + 1] is Ok);
        }
        lemma_first_error_at(t, n - 1);
    }
}

proof fn lemma_no_error<T, E>(s: Seq<Result<T, E>>)
    requires
        forall|i: int| 0 <= i < s.len() ==> #[trigger] s[i] is Ok,
    ensures
        first_error(s) == s.len(),
    decreases s.len(),
{
    if s.len() > 0 {
        let t = s.drop_first();
        assert forall|i: int| 0 <= i < t.len() implies #[trigger] t[i] is Ok by {
            assert(s[i + 1] is Ok);
        }
        lemma_no_error(t);
    }
}

proof fn lemma_sum_ms_pointwise<T>(ps: Seq<Seq<T>>, qs: Seq<Seq<T>>)
    requires
        ps.len() == qs.len(),
        forall|i: int| 0 <= i < ps.len() ==> (#[trigger] ps[i]).to_multiset() == qs[i].to_multiset(),
    ensures
        sum_ms(ps) == sum_ms(qs),
    decreases ps.len(),
{
    if ps.len() > 0 {
        let (a, b) = (ps.drop_last(), qs.drop_last());
        assert forall|i: int| 0 <= i < a.len() implies (#[trigger] a[i]).to_multiset()
            == b[i].to_multiset() by {
            assert(a[i] == ps[i] && b[i] == qs[i]);
        }
        lemma_sum_ms_pointwise(a, b);
        assert(ps.last().to_multiset() == qs.last().to_multiset());
    }
}

/// Sorting succeeds only on an input without errors, and then draining the
/// merger it returned gives the input's items stably sorted: every item as
/// often as the input holds it, in order under the comparator, and equal
/// items in the order they came in.  `fuel` is any number of calls at least
/// as large as the input.
///
/// This rests on the codec's promise that runs read back as written, with
/// no error; for a codec whose reads can fail it holds only while they
/// succeed.
pub proof fn lemma_sort_sorted<T, E, F: Compare<T>, B: ChunkBufferBuilder<T>, C: ExternalChunk<T>>(
    c: F,
    b: B,
    input: Seq<Result<T, E>>,
    m: BinaryHeapMerger<T, F, C>,
    fuel: nat,
)
    requires
        sort_outcome(c, b, input, Ok::<_, SortError<C::SerializationError, C::Error, E>>(m)),
        fuel >= input.len(),
    ensures
        first_error(input) == input.len(),
        is_stable_sort(c, drain_items(c, m.heads@, m.runs(), 0, fuel), ok_values(input)),
{
    let runs = m.runs();
    let heads = m.heads@;
    assert(runs_of(c, b, runs, ok_values(input)));
    let ps = choose|ps: Seq<Seq<T>>| pieces_fit(c, b, runs, ok_values(input), ps);
    assert forall|i: int| 0 <= i < runs.len() implies no_errors(#[trigger] runs[i]) by {
        assert(runs[i] == all_ok::<T, C::Error>(ok_values(runs[i])));
    }
    assert forall|i: int| 0 <= i < runs.len() implies sorted_by(
        c,
        #[trigger] pending(heads[i], runs[i]),
    ) by {
        assert(runs[i] == all_ok::<T, C::Error>(ok_values(runs[i])));
        assert(is_stable_sort(c, ok_values(runs[i]), ps[i]));
    }
    assert(merge_ready(c, heads, runs, 0));
    let qs = parts(heads, runs);
    assert forall|i: int| 0 <= i < qs.len() implies (#[trigger] qs[i]).to_multiset()
        == ps[i].to_multiset() by {
        assert(runs[i] == all_ok::<T, C::Error>(ok_values(runs[i])));
        assert(is_stable_sort(c, ok_values(runs[i]), ps[i]));
    }
    lemma_sum_ms_pointwise(qs, ps);
    lemma_sum_ms_flatten(ps);
    assert(sum_ms(qs).len() == input.len()) by {
        broadcast use vstd::seq_lib::group_to_multiset_ensures;

        assert(ok_values(input).len() == input.len());
    }
    lemma_merge_sorted(c, heads, runs, 0, fuel);
    let out = drain_items(c, heads, runs, 0, fuel);
    assert forall|x: T| #[trigger] equal_items(c, out, x) == equal_items(c, ok_values(input), x) by {
        lemma_merge_stable(c, heads, runs, 0, fuel, x);
        assert(classes(c, qs, x) =~= classes(c, ps, x)) by {
            assert forall|i: int| 0 <= i < qs.len() implies classes(c, qs, x)[i] == classes(
                c,
                ps,
                x,
            )[i] by {
                assert(runs[i] == all_ok::<T, C::Error>(ok_values(runs[i])));
                assert(is_stable_sort(c, ok_values(runs[i]), ps[i]));
                assert(equal_items(c, ok_values(runs[i]), x) == equal_items(c, ps[i], x));
            }
        }
        lemma_class_flatten(c, ps, x);
    }
}

/// Under the count policy with limit `n`, every run but the last holds
/// exactly `max(n, 1)` items and the last one at least one and at most that
/// many: no run holds more than `n + 1` items, and for `n >= 1` the number
/// `k` of runs of the input `xs` is `|xs| / n` rounded up, that is
/// `(k - 1) * n < |xs| <= k * n`.
pub proof fn lemma_count_runs<T>(b: LimitedBufferBuilder, ps: Seq<Seq<T>>)
    requires
        cut_by::<T, LimitedBufferBuilder>(b, ps),
        forall|i: int| 0 <= i < ps.len() ==> (#[trigger] ps[i]).len() > 0,
    ensures
        forall|i: int|
            0 <= i < ps.len() ==> (#[trigger] ps[i]).len() <= if b.buffer_limit == 0 {
                1
            } else {
                b.buffer_limit as int
            },
        forall|i: int|
            0 <= i < ps.len() - 1 ==> (#[trigger] ps[i]).len() == if b.buffer_limit == 0 {
                1
            } else {
                b.buffer_limit as int
            },
        forall|i: int| 0 <= i < ps.len() ==> (#[trigger] ps[i]).len() <= b.buffer_limit + 1,
        b.buffer_limit >= 1 && ps.len() > 0 ==> (ps.len() - 1) * b.buffer_limit < ps.flatten().len()
            <= ps.len() * b.buffer_limit,
{
    let n = b.buffer_limit as int;
    assert forall|i: int| 0 <= i < ps.len() implies (#[trigger] ps[i]).len() <= if n == 0 {
        1
    } else {
        n
    } by {
        let l = ps[i].len() as int;
        if l >= 2 {
            assert(!ChunkBufferBuilder::<T>::full_with(&b, ps[i].take(l - 1)));
        }
    }
    assert forall|i: int| 0 <= i < ps.len() - 1 implies (#[trigger] ps[i]).len() == if n == 0 {
        1
    } else {
        n
    } by {
        assert(ChunkBufferBuilder::<T>::full_with(&b, ps[i]));
    }
    if n >= 1 && ps.len() > 0 {
        lemma_count_flatten_len(ps, n);
    }
}

proof fn lemma_count_flatten_len<T>(ps: Seq<Seq<T>>, n: int)
    requires
        n >= 1,
        ps.len() > 0,
        forall|i: int| 0 <= i < ps.len() ==> 0 < (#[trigger] ps[i]).len() <= n,
        forall|i: int| 0 <= i < ps.len() - 1 ==> (#[trigger] ps[i]).len() == n,
    ensures
        (ps.len() - 1) * n < ps.flatten().len() <= ps.len() * n,
    decreases ps.len(),
{
    let t = ps.drop_first();
    assert(ps.flatten() == ps[0] + t.flatten());
    if ps.len() == 1 {
        assert(t.flatten() =~= Seq::<T>::empty());
    } else {
        assert forall|i: int| 0 <= i < t.len() implies 0 < (#[trigger] t[i]).len() <= n by {
            assert(t[i] == ps[i + 1]);
        }
        assert forall|i: int| 0 <= i < t.len() - 1 implies (#[trigger] t[i]).len() == n by {
            assert(t[i] == ps[i + 1]);
        }
        lemma_count_flatten_len(t, n);
        let k = t.len() as int;
        let f = t.flatten().len() as int;
        assert((k - 1) * n < f <= k * n);
        assert(ps[0].len() == n);
        assert((k + 1 - 1) * n == (k - 1) * n + n) by (nonlinear_arith);
        assert((k + 1) * n == k * n + n) by (nonlinear_arith);
    }
}

/// A merger over no run ends at its first call.
pub proof fn lemma_no_runs_ends<T, E, C: Compare<T>>(c: C, heads: Seq<Option<T>>, runs: Seq<Seq<Result<T, E>>>)
    requires
        heads.len() == 0,
        runs.len() == 0,
    ensures
        merge_step(c, heads, runs, 0).0 is None,
{
    assert(init_heads(heads, runs, 0, 0).len() == 0);
}

} // verus!
