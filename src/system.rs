use vstd::prelude::*;

use crate::bytes::{append_bytes, copy_bytes, copy_range};
use crate::chunk::Chunk;
use crate::chunker::{covered, tiles_prefix, Chunker};
use crate::clock::{elapsed, now, zero_duration, WriteMeasurements};
use crate::database::{grows_from, Database};
use crate::error::{Error, ErrorKind};
use crate::file_layer::{
    block_of, hashes_of, skip_count, take_count, total_len, FileHandle, FileLayer, Span, SpanView, spans_len,
    lemma_block_from_boundary, lemma_layer_tiles,
};
use crate::hasher::Hasher;
use crate::SEG_SIZE;

verus! {

/// The bytes that `spans` stand for when their payloads are looked up in
/// `db`.
pub open spec fn bytes_of(db: Map<Seq<u8>, Seq<u8>>, spans: Seq<SpanView>) -> Seq<u8>
    decreases spans.len(),
{
    if spans.len() == 0 {
        Seq::empty()
    } else {
        bytes_of(db, spans.drop_last()) + db[spans.last().0]
    }
}

/// Every span of `spans` is non-empty and has its payload in `db`, of the
/// span's length.
pub open spec fn spans_stored(db: Map<Seq<u8>, Seq<u8>>, spans: Seq<SpanView>) -> bool {
    forall|i: int|
        0 <= i < spans.len() ==> db.contains_key(#[trigger] spans[i].0) && db[spans[i].0].len()
            == spans[i].2 && spans[i].2 > 0
}

/// Every payload of `db` is stored under its own hash.
pub open spec fn hashes_consistent<H: Hasher>(db: Map<Seq<u8>, Seq<u8>>) -> bool {
    forall|k: Seq<u8>| #[trigger] db.contains_key(k) ==> H::spec_hash(db[k]) == k
}

pub proof fn lemma_bytes_of_append(db: Map<Seq<u8>, Seq<u8>>, s: Seq<SpanView>, t: Seq<SpanView>)
    ensures
        bytes_of(db, s + t) == bytes_of(db, s) + bytes_of(db, t),
    decreases t.len(),
{
    if t.len() == 0 {
        assert(s + t =~= s);
        assert(bytes_of(db, s) + bytes_of(db, t) =~= bytes_of(db, s));
    } else {
        lemma_bytes_of_append(db, s, t.drop_last());
        assert((s + t).drop_last() =~= s + t.drop_last());
        assert((s + t).last() == t.last());
        assert(bytes_of(db, s + t) =~= bytes_of(db, s) + bytes_of(db, t));
    }
}

/// Looking spans up in a larger store gives the same bytes.
pub proof fn lemma_bytes_of_agree(
    db1: Map<Seq<u8>, Seq<u8>>,
    db2: Map<Seq<u8>, Seq<u8>>,
    s: Seq<SpanView>,
)
    requires
        forall|i: int| 0 <= i < s.len() ==> db1.contains_key(#[trigger] s[i].0),
        forall|k: Seq<u8>| db1.contains_key(k) ==> #[trigger] db2.contains_key(k) && db2[k] == db1[k],
    ensures
        bytes_of(db1, s) == bytes_of(db2, s),
    decreases s.len(),
{
    if s.len() > 0 {
        let p = s.drop_last();
        assert forall|i: int| 0 <= i < p.len() implies db1.contains_key(#[trigger] p[i].0) by {
            assert(p[i] == s[i]);
        }
        lemma_bytes_of_agree(db1, db2, p);
        assert(db1.contains_key(s[s.len() - 1].0));
        assert(s.last() == s[s.len() - 1]);
        assert(db2.contains_key(s.last().0) && db2[s.last().0] == db1[s.last().0]);
    }
}

pub proof fn lemma_bytes_of_prefix_step(db: Map<Seq<u8>, Seq<u8>>, s: Seq<SpanView>, k: int)
    requires
        0 <= k < s.len(),
    ensures
        bytes_of(db, s.subrange(0, k + 1)) == bytes_of(db, s.subrange(0, k)) + db[s[k].0],
{
    assert(s.subrange(0, k + 1).drop_last() =~= s.subrange(0, k));
}

/// Spans made from tiling chunks of `buf`, each with its chunk as payload,
/// stand for the bytes that the chunks cover.
pub proof fn lemma_chunk_bytes(
    db: Map<Seq<u8>, Seq<u8>>,
    u: Seq<SpanView>,
    chunks: Seq<Chunk>,
    buf: Seq<u8>,
)
    requires
        u.len() == chunks.len(),
        tiles_prefix(chunks, buf.len()),
        forall|j: int|
            0 <= j < u.len() ==> db.contains_key(#[trigger] u[j].0) && db[u[j].0]
                == buf.subrange(chunks[j].start() as int, chunks[j].end() as int),
    ensures
        bytes_of(db, u) == buf.subrange(0, covered(chunks) as int),
    decreases u.len(),
{
    if u.len() == 0 {
        assert(buf.subrange(0, 0) =~= Seq::<u8>::empty());
    } else {
        let n = u.len() - 1;
        let u2 = u.drop_last();
        let c2 = chunks.drop_last();
        assert forall|j: int| 0 < j < c2.len() implies #[trigger] c2[j].start() == c2[j - 1].end() by {
            assert(c2[j] == chunks[j] && c2[j - 1] == chunks[j - 1]);
        }
        assert forall|j: int| 0 <= j < c2.len() implies #[trigger] c2[j].len() > 0 && c2[j].end() <= buf.len() by {
            assert(c2[j] == chunks[j]);
        }
        assert(tiles_prefix(c2, buf.len()));
        assert forall|j: int| 0 <= j < u2.len() implies db.contains_key(#[trigger] u2[j].0) && db[u2[j].0]
            == buf.subrange(c2[j].start() as int, c2[j].end() as int) by {
            assert(u2[j] == u[j] && c2[j] == chunks[j]);
        }
        lemma_chunk_bytes(db, u2, c2, buf);
        assert(db.contains_key(u[n].0));
        let prev_end = covered(c2);
        if n > 0 {
            assert(chunks[n].start() == chunks[n - 1].end());
        }
        assert(chunks[n].start() == prev_end);
        assert(buf.subrange(0, prev_end as int) + buf.subrange(prev_end as int, chunks[n].end() as int)
            =~= buf.subrange(0, chunks[n].end() as int));
    }
}

} // verus!

verus! {

/// Files over a chunk store: writes are chunked by `C`, hashed by `H` and
/// stored once per distinct hash in `B`.
pub struct FileSystem<C: Chunker, H: Hasher, B: Database> {
    chunker: C,
    hasher: H,
    base: B,
    file_layer: FileLayer,
}

/// A file system over `chunker`, `hasher` and `base`, with no files.
pub fn create_cdc_filesystem<C: Chunker, H: Hasher, B: Database>(
    chunker: C,
    hasher: H,
    base: B,
) -> (r: FileSystem<C, H, B>)
    requires
        base.well_formed(),
        hashes_consistent::<H>(base.contents()),
    ensures
        r.well_formed(),
        r.files() == Map::<Seq<char>, Seq<SpanView>>::empty(),
        r.store() == base.contents(),
        r.store_reliable() == base.reliable(),
{
    FileSystem::new(chunker, hasher, base)
}

impl<C: Chunker, H: Hasher, B: Database> FileSystem<C, H, B> {
    /// Each file name with the spans of that file.
    pub closed spec fn files(&self) -> Map<Seq<char>, Seq<SpanView>> {
        self.file_layer.view()
    }

    /// The chunk store: hash to payload.
    pub closed spec fn store(&self) -> Map<Seq<u8>, Seq<u8>> {
        self.base.contents()
    }

    /// Whether the chunk store never fails (see `Database::reliable`).
    pub closed spec fn store_reliable(&self) -> bool {
        self.base.reliable()
    }

    /// Every span of every file has its payload in the store, of the span's
    /// length, and is non-empty.
    pub proof fn lemma_spans_stored(&self, name: Seq<char>)
        requires
            self.well_formed(),
            self.files().contains_key(name),
        ensures
            spans_stored(self.store(), self.files()[name]),
    {
    }

    /// The bytes of the file called `name`.
    pub open spec fn content(&self, name: Seq<char>) -> Seq<u8> {
        bytes_of(self.store(), self.files()[name])
    }

    pub closed spec fn well_formed(&self) -> bool {
        &&& self.base.well_formed()
        &&& self.file_layer.well_formed()
        &&& hashes_consistent::<H>(self.base.contents())
        &&& forall|n: Seq<char>|
            #[trigger] self.file_layer.view().contains_key(n) ==> spans_stored(
                self.base.contents(),
                self.file_layer.view()[n],
            )
    }

    /// The length of a file is the length of its content.
    pub proof fn lemma_content_len(&self, name: Seq<char>)
        requires
            self.well_formed(),
            self.files().contains_key(name),
        ensures
            self.content(name).len() == total_len(self.files()[name]),
    {
        lemma_bytes_len(self.store(), self.files()[name]);
    }

    pub fn new(chunker: C, hasher: H, base: B) -> (r: Self)
        requires
            base.well_formed(),
            hashes_consistent::<H>(base.contents()),
        ensures
            r.well_formed(),
            r.files() == Map::<Seq<char>, Seq<SpanView>>::empty(),
            r.store() == base.contents(),
            r.store_reliable() == base.reliable(),
    {
        FileSystem { chunker, hasher, base, file_layer: FileLayer::new() }
    }

    /// Creates an empty file; `AlreadyExists` if the name is taken.
    pub fn create_file(&mut self, name: String) -> (r: Result<FileHandle, Error>)
        requires
            old(self).well_formed(),
        ensures
            final(self).well_formed(),
            final(self).store() == old(self).store(),
            old(self).files().contains_key(name@) ==> r == Err::<FileHandle, Error>(
                Error { kind: ErrorKind::AlreadyExists },
            ) && final(self).files() == old(self).files(),
            !old(self).files().contains_key(name@) ==> r is Ok && final(self).files() == old(
                self,
            ).files().insert(name@, Seq::<SpanView>::empty()),
            r matches Ok(h) ==> h.name_view() == name@ && h.position() == 0 && h.pending_view()
                == Seq::<u8>::empty(),
    {
        let r = self.file_layer.create(name);
        proof {
            let db = self.base.contents();
            assert forall|n: Seq<char>| #[trigger] self.file_layer.view().contains_key(n) implies spans_stored(
                db,
                self.file_layer.view()[n],
            ) by {
                if !old(self).file_layer.view().contains_key(n) {
                    assert(self.file_layer.view()[n] =~= Seq::<SpanView>::empty());
                }
            }
        }
        r
    }

    /// Chunks the handle's waiting bytes followed by `data`, stores each new
    /// chunk under its hash and appends the chunks to the file; the bytes
    /// after the last complete chunk wait in the handle for the next write.
    #[verifier::rlimit(60)]
    pub fn write_to_file(&mut self, handle: &mut FileHandle, data: &[u8]) -> (r: Result<(), Error>)
        requires
            old(self).well_formed(),
            old(self).files().contains_key(old(handle).name_view()),
            old(handle).position() == total_len(old(self).files()[old(handle).name_view()]),
            total_len(old(self).files()[old(handle).name_view()]) + old(handle).pending_view().len()
                + data@.len() <= usize::MAX,
        ensures
            final(self).well_formed(),
            final(handle).name_view() == old(handle).name_view(),
            final(self).files().dom() == old(self).files().dom(),
            forall|n: Seq<char>|
                #[trigger] old(self).files().contains_key(n) && n != old(handle).name_view()
                    ==> final(self).files()[n] == old(self).files()[n] && final(self).content(n)
                    == old(self).content(n),
            r is Ok ==> final(self).content(old(handle).name_view()) + final(handle).pending_view()
                == old(self).content(old(handle).name_view()) + old(handle).pending_view() + data@,
            r is Ok ==> final(handle).position() == total_len(final(self).files()[old(handle).name_view()]),
            r is Ok ==> forall|k: Seq<u8>|
                #[trigger] final(self).store().contains_key(k) && !old(self).store().contains_key(k)
                    ==> exists|i: int|
                    old(self).files()[old(handle).name_view()].len() <= i < final(self).files()[old(
                        handle,
                    ).name_view()].len() && final(self).files()[old(handle).name_view()][i].0 == k,
            forall|k: Seq<u8>|
                #[trigger] old(self).store().contains_key(k) ==> final(self).store().contains_key(k)
                    && final(self).store()[k] == old(self).store()[k],
            forall|k: Seq<u8>|
                #[trigger] final(self).store().contains_key(k) && !old(self).store().contains_key(k)
                    ==> exists|a: int, b: int|
                    0 <= a <= b <= old(handle).pending_view().len() + data@.len() && k == H::spec_hash(
                        (old(handle).pending_view() + data@).subrange(a, b),
                    ),
            final(self).store_reliable() == old(self).store_reliable(),
            old(self).store_reliable() ==> r is Ok,
            old(handle).pending_view().len() + data@.len() == 0 ==> r is Ok,
            r is Err ==> final(self).files() == old(self).files() && final(handle).pending_view()
                == old(handle).pending_view() && final(handle).position() == old(handle).position()
                && forall|n: Seq<char>|
                #[trigger] old(self).files().contains_key(n) ==> final(self).content(n)
                    == old(self).content(n),
    {
        let ghost name = handle.name_view();
        let ghost db0 = self.base.contents();
        let ghost files0 = self.file_layer.view();
        let ghost s0 = files0[name];
        let prev = handle.take_pending();
        let mut buf = copy_bytes(prev.as_slice());
        append_bytes(&mut buf, data);

        assert(buf@.len() <= usize::MAX);
        let started = now();
        let estimate = self.chunker.estimate_chunk_count(buf.as_slice());
        let chunks = self.chunker.chunk_data(buf.as_slice(), Vec::with_capacity(estimate));
        let chunk_time = elapsed(&started);

        let started = now();
        let mut pairs: Vec<(Vec<u8>, Vec<u8>)> = Vec::new();
        let mut spans: Vec<Span> = Vec::new();
        let mut k: usize = 0;
        while k < chunks.len()
            invariant
                self.base.well_formed(),
                self.base.contents() == db0,
                self.base.reliable() == old(self).base.reliable(),
                self.file_layer.well_formed(),
                self.file_layer.view() == files0,
                hashes_consistent::<H>(db0),
                forall|n: Seq<char>| #[trigger] files0.contains_key(n) ==> spans_stored(db0, files0[n]),
                files0.contains_key(name),
                handle.name_view() == name,
                handle.position() == old(handle).position(),
                prev@ == old(handle).pending_view(),
                buf@ == prev@ + data@,
                buf@.len() <= usize::MAX,
                tiles_prefix(chunks@, buf@.len()),
                k <= chunks@.len(),
                pairs@.len() == k,
                spans@.len() == k,
                forall|j: int|
                    0 <= j < k ==> (#[trigger] pairs@[j]).1@ == buf@.subrange(
                        chunks@[j].start() as int,
                        chunks@[j].end() as int,
                    ) && pairs@[j].0@ == H::spec_hash(pairs@[j].1@) && spans@[j].hash@
                        == pairs@[j].0@ && spans@[j].length == chunks@[j].len(),
                spans_len(spans@) == covered(chunks@.subrange(0, k as int)),
            decreases chunks@.len() - k,
        {
            let c = chunks[k];
            assert(c == chunks@[k as int]);
            assert(chunks@[k as int].end() <= buf@.len());
            let piece = copy_range(buf.as_slice(), c.offset(), c.offset() + c.length());
            let hash = self.hasher.hash(piece.as_slice());
            let span_hash = copy_bytes(hash.as_slice());
            let ghost spans_before = spans@;
            spans.push(Span::new(span_hash, c.length()));
            pairs.push((hash, piece));
            proof {
                assert(spans@.drop_last() =~= spans_before);
                if k > 0 {
                    assert(chunks@[k as int].start() == chunks@[k - 1].end());
                }
                assert(chunks@.subrange(0, k + 1).last() == chunks@[k as int]);
                assert(chunks@.subrange(0, k as int).len() > 0 ==> chunks@.subrange(0, k as int).last() == chunks@[k - 1]);
            }
            k = k + 1;
        }
        let hash_time = elapsed(&started);
        let ghost pairs_v = pairs@;
        let ghost spans_v = spans@;
        proof {
            assert(chunks@.subrange(0, k as int) =~= chunks@);
            if chunks@.len() > 0 {
                assert(chunks@[chunks@.len() - 1].end() <= buf@.len());
            }
        }

        let started = now();
        let saved = self.base.insert_multi(pairs);
        let save_time = elapsed(&started);
        let ghost db1 = self.base.contents();
        proof {
            lemma_store_grew::<H>(db0, db1, pairs_v, files0);
            assert forall|k2: Seq<u8>| #[trigger] db1.contains_key(k2) && !db0.contains_key(k2)
                implies exists|a: int, b: int| 0 <= a <= b <= buf@.len() && k2 == H::spec_hash(buf@.subrange(a, b)) by {
                let i = choose|i: int| 0 <= i < pairs_v.len() && pairs_v[i].0@ == k2 && pairs_v[i].1@ == db1[k2];
                assert(pairs_v[i].1@ == buf@.subrange(chunks@[i].start() as int, chunks@[i].end() as int));
                assert(chunks@[i].end() <= buf@.len());
                assert(pairs_v[i].0@ == H::spec_hash(pairs_v[i].1@));
            }
        }
        match saved {
            Ok(()) => {},
            Err(e) => {
                handle.set_pending(prev);
                return Err(e);
            },
        }

        proof {
            assert forall|j: int| 0 <= j < spans_v.len() implies #[trigger] spans_v[j].length > 0 by {
                assert(pairs_v[j].1@ == buf@.subrange(chunks@[j].start() as int, chunks@[j].end() as int));
                assert(chunks@[j].len() > 0);
            }
        }
        self.file_layer.write(handle, spans);
        let ghost t = self.file_layer.view()[name];
        let end = if chunks.len() == 0 {
            0
        } else {
            chunks[chunks.len() - 1].offset() + chunks[chunks.len() - 1].length()
        };
        let tail = copy_range(buf.as_slice(), end, buf.len());
        handle.set_pending(tail);
        handle.add_measurements(WriteMeasurements::new(save_time, chunk_time, hash_time));
        proof {
            lemma_appended::<H>(db1, s0, t, chunks@, buf@, spans_v, pairs_v);
            assert forall|n: Seq<char>| #[trigger] self.file_layer.view().contains_key(n) implies spans_stored(
                self.base.contents(),
                self.file_layer.view()[n],
            ) by {
                if n != name {
                    assert(files0.contains_key(n));
                }
            }
            assert(buf@.subrange(0, end as int) + tail@ =~= buf@);
            assert forall|k2: Seq<u8>| #[trigger] db1.contains_key(k2) && !db0.contains_key(k2)
                implies exists|i: int| s0.len() <= i < t.len() && t[i].0 == k2 by {
                let j = choose|j: int| 0 <= j < pairs_v.len() && pairs_v[j].0@ == k2 && pairs_v[j].1@ == db1[k2];
                assert(t[s0.len() + j].0 == spans_v[j].hash@);
            }
            assert(files0.insert(name, t).dom() =~= files0.dom());
        }
        Ok(())
    }

    /// Stores the bytes waiting in the handle as one last chunk and returns
    /// the time spent writing through the handle.
    pub fn close_file(&mut self, handle: FileHandle) -> (r: Result<WriteMeasurements, Error>)
        requires
            old(self).well_formed(),
            old(self).files().contains_key(handle.name_view()),
            handle.position() == total_len(old(self).files()[handle.name_view()]),
            total_len(old(self).files()[handle.name_view()]) + handle.pending_view().len() <= usize::MAX,
        ensures
            final(self).well_formed(),
            final(self).files().dom() == old(self).files().dom(),
            forall|n: Seq<char>|
                #[trigger] old(self).files().contains_key(n) && n != handle.name_view()
                    ==> final(self).files()[n] == old(self).files()[n] && final(self).content(n)
                    == old(self).content(n),
            r is Ok ==> final(self).content(handle.name_view()) == old(self).content(handle.name_view())
                + handle.pending_view(),
            handle.pending_view().len() == 0 ==> r is Ok && final(self).files() == old(self).files()
                && final(self).store() == old(self).store(),
            final(self).store_reliable() == old(self).store_reliable(),
            old(self).store_reliable() ==> r is Ok,
            r is Err ==> final(self).files() == old(self).files() && forall|n: Seq<char>|
                #[trigger] old(self).files().contains_key(n) ==> final(self).content(n)
                    == old(self).content(n),
    {
        let ghost name = handle.name_view();
        let ghost db0 = self.base.contents();
        let ghost files0 = self.file_layer.view();
        let ghost s0 = files0[name];
        let ghost pending = handle.pending_view();
        let mut handle = handle;
        let tail = handle.take_pending();
        if tail.len() == 0 {
            proof {
                assert(bytes_of(db0, s0) + pending =~= bytes_of(db0, s0));
            }
            return Ok(handle.measurements());
        }
        let started = now();
        let hash = self.hasher.hash(tail.as_slice());
        let hash_time = elapsed(&started);
        let span_hash = copy_bytes(hash.as_slice());
        let length = tail.len();
        let mut pairs: Vec<(Vec<u8>, Vec<u8>)> = Vec::new();
        pairs.push((hash, tail));
        let ghost pairs_v = pairs@;
        let started = now();
        let saved = self.base.insert_multi(pairs);
        let save_time = elapsed(&started);
        let ghost db1 = self.base.contents();
        proof {
            lemma_store_grew::<H>(db0, db1, pairs_v, files0);
        }
        match saved {
            Ok(()) => {},
            Err(e) => {
                return Err(e);
            },
        }
        let mut spans: Vec<Span> = Vec::new();
        spans.push(Span::new(span_hash, length));
        let ghost spans_v = spans@;
        let whole = Chunk::new(0, length);
        let ghost chunks = seq![whole];
        proof {
            assert(spans_len(spans_v) == length) by {
                assert(spans_v.drop_last() =~= Seq::<Span>::empty());
                assert(spans_len(Seq::<Span>::empty()) == 0);
                assert(spans_v.last().length == length);
            }
            assert(pending.subrange(0, length as int) =~= pending);
        }
        self.file_layer.write(&mut handle, spans);
        let ghost t = self.file_layer.view()[name];
        proof {
            lemma_appended::<H>(db1, s0, t, chunks, pending, spans_v, pairs_v);
            assert forall|n: Seq<char>| #[trigger] self.file_layer.view().contains_key(n) implies spans_stored(
                self.base.contents(),
                self.file_layer.view()[n],
            ) by {
                if n != name {
                    assert(files0.contains_key(n));
                }
            }
            assert(files0.insert(name, t).dom() =~= files0.dom());
        }
        handle.add_measurements(WriteMeasurements::new(save_time, zero_duration(), hash_time));
        Ok(handle.measurements())
    }

    /// The whole content of the handle's file.
    pub fn read_file_complete(&self, handle: &FileHandle) -> (r: Result<Vec<u8>, Error>)
        requires
            self.well_formed(),
            self.files().contains_key(handle.name_view()),
        ensures
            r matches Ok(v) ==> v@ == self.content(handle.name_view()),
            self.store_reliable() ==> r is Ok,
            self.files()[handle.name_view()].len() == 0 ==> (r is Ok && r->Ok_0@.len() == 0),
    {
        let hashes = self.file_layer.read_complete(handle);
        let ghost s = self.file_layer.view()[handle.name_view()];
        self.fetch(hashes, Ghost(s))
    }

    /// The next block of the handle's file: the chunks from the handle's
    /// offset on, as many as fit in `SEG_SIZE` bytes. Past the end of the
    /// file the result is empty.
    pub fn read_from_file(&self, handle: &mut FileHandle) -> (r: Result<Vec<u8>, Error>)
        requires
            self.well_formed(),
            self.files().contains_key(old(handle).name_view()),
        ensures
            final(handle).name_view() == old(handle).name_view(),
            final(handle).pending_view() == old(handle).pending_view(),
            ({
                let b = block_of(self.files()[old(handle).name_view()], old(handle).position());
                &&& final(handle).position() == old(handle).position() + total_len(b)
                &&& r matches Ok(v) ==> v@ == bytes_of(self.store(), b)
                &&& b.len() == 0 ==> (r is Ok && r->Ok_0@.len() == 0)
            }),
            self.store_reliable() ==> r is Ok,
    {
        let ghost s = self.file_layer.view()[handle.name_view()];
        let ghost b = block_of(s, handle.position());
        let hashes = self.file_layer.read(handle);
        proof {
            let a = skip_count(s, old(handle).position()) as int;
            let rest = s.subrange(a, s.len() as int);
            lemma_block_within(s, old(handle).position());
            assert forall|i: int| 0 <= i < b.len() implies self.store().contains_key(#[trigger] b[i].0) by {
                assert(b[i] == s[a + i]);
                assert(spans_stored(self.store(), s));
            }
        }
        self.fetch(hashes, Ghost(b))
    }

    /// The payloads of `hashes`, the hashes of `spans`, one after another.
    fn fetch(&self, hashes: Vec<Vec<u8>>, spans: Ghost<Seq<SpanView>>) -> (r: Result<Vec<u8>, Error>)
        requires
            self.well_formed(),
            hashes@.map_values(|h: Vec<u8>| h@) == hashes_of(spans@),
            forall|i: int| 0 <= i < spans@.len() ==> self.store().contains_key(#[trigger] spans@[i].0),
        ensures
            r matches Ok(v) ==> v@ == bytes_of(self.store(), spans@),
            self.store_reliable() ==> r is Ok,
            spans@.len() == 0 ==> r is Ok,
    {
        let ghost s = spans@;
        let ghost db = self.store();
        assert(hashes@.len() == s.len()) by {
            assert(hashes@.map_values(|h: Vec<u8>| h@).len() == hashes_of(s).len());
        }
        proof {
            assert forall|i: int| 0 <= i < hashes@.len() implies db.contains_key(#[trigger] hashes@[i]@) by {
                assert(hashes@.map_values(|h: Vec<u8>| h@)[i] == hashes_of(s)[i]);
            }
        }
        let payloads = self.base.get_multi(hashes.as_slice());
        let payloads = match payloads {
            Ok(p) => p,
            Err(e) => {
                return Err(e);
            },
        };
        let mut out: Vec<u8> = Vec::new();
        let mut k: usize = 0;
        proof {
            assert(s.subrange(0, 0) =~= Seq::<SpanView>::empty());
        }
        while k < payloads.len()
            invariant
                payloads@.len() == s.len(),
                hashes@.len() == s.len(),
                hashes@.map_values(|h: Vec<u8>| h@) == hashes_of(s),
                forall|i: int|
                    0 <= i < hashes@.len() ==> db.contains_key(#[trigger] hashes@[i]@) && payloads@[i]@
                        == db[hashes@[i]@],
                k <= s.len(),
                out@ == bytes_of(db, s.subrange(0, k as int)),
            decreases s.len() - k,
        {
            proof {
                lemma_bytes_of_prefix_step(db, s, k as int);
                assert(hashes@.map_values(|h: Vec<u8>| h@)[k as int] == hashes_of(s)[k as int]);
                assert(hashes@[k as int]@ == s[k as int].0);
            }
            append_bytes(&mut out, payloads[k].as_slice());
            k = k + 1;
        }
        proof {
            assert(s.subrange(0, k as int) =~= s);
        }
        Ok(out)
    }

    /// Successive block reads return a file in order: from the boundary
    /// after `i` spans, a block read returns the next spans, whose bytes
    /// followed by the bytes after them are the bytes of the file from that
    /// boundary on. A block holds at most `SEG_SIZE` bytes, at least one span
    /// while any is left, and leaves the handle on the next boundary; at the
    /// end of the file it is empty.
    pub proof fn lemma_block_round_trip(&self, name: Seq<char>, i: int)
        requires
            self.well_formed(),
            self.files().contains_key(name),
            0 <= i <= self.files()[name].len(),
            forall|j: int| 0 <= j < self.files()[name].len() ==> #[trigger] self.files()[name][j].2 <= SEG_SIZE,
        ensures
            ({
                let s = self.files()[name];
                let b = block_of(s, total_len(s.subrange(0, i)));
                let j = i + b.len();
                &&& j <= s.len()
                &&& bytes_of(self.store(), s.subrange(i, s.len() as int)) == bytes_of(self.store(), b)
                    + bytes_of(self.store(), s.subrange(j, s.len() as int))
                &&& bytes_of(self.store(), b).len() <= SEG_SIZE
                &&& i < s.len() ==> b.len() > 0
                &&& i == s.len() ==> bytes_of(self.store(), b).len() == 0
                &&& total_len(s.subrange(0, i)) + total_len(b) == total_len(s.subrange(0, j))
                &&& bytes_of(self.store(), s.subrange(0, i)) + bytes_of(self.store(), b) == bytes_of(
                    self.store(),
                    s.subrange(0, j),
                )
                &&& bytes_of(self.store(), s.subrange(0, s.len() as int)) == self.content(name)
            }),
    {
        let s = self.files()[name];
        let db = self.store();
        assert(spans_stored(db, s));
        assert(self.file_layer.well_formed());
        lemma_layer_tiles(&self.file_layer, name);
        assert forall|j: int| 0 <= j < s.len() implies 0 < #[trigger] s[j].2 <= SEG_SIZE by {
            assert(db.contains_key(s[j].0));
        }
        lemma_block_from_boundary(s, i);
        let b = block_of(s, total_len(s.subrange(0, i)));
        let j = i + b.len();
        assert(s.subrange(i, s.len() as int) =~= b + s.subrange(j, s.len() as int));
        lemma_bytes_of_append(db, b, s.subrange(j, s.len() as int));
        assert(s.subrange(0, j) =~= s.subrange(0, i) + b);
        lemma_bytes_of_append(db, s.subrange(0, i), b);
        assert forall|k: int| 0 <= k < b.len() implies db.contains_key(#[trigger] b[k].0) && db[b[k].0].len()
            == b[k].2 && b[k].2 > 0 by {
            assert(b[k] == s[i + k]);
        }
        lemma_bytes_len(db, b);
        assert(s.subrange(0, s.len() as int) =~= s);
    }

    /// The chunk store.
    pub fn base(&self) -> (r: &B)
        requires
            self.well_formed(),
        ensures
            r.contents() == self.store(),
            r.well_formed(),
    {
        &self.base
    }

    /// A handle at offset 0 on the file called `name`; `NotFound` if there
    /// is none.
    pub fn open_file(&self, name: &str) -> (r: Result<FileHandle, Error>)
        requires
            self.well_formed(),
        ensures
            r is Ok <==> self.files().contains_key(name@),
            r is Err ==> r->Err_0.kind == ErrorKind::NotFound,
            r matches Ok(h) ==> h.name_view() == name@ && h.position() == 0 && h.pending_view()
                == Seq::<u8>::empty(),
    {
        match self.file_layer.open(name) {
            Some(h) => Ok(h),
            None => Err(Error::new(ErrorKind::NotFound)),
        }
    }
}

/// After a store grows by pairs that are each stored under their own hash,
/// it still stores every payload under its hash, and the spans of the files
/// stand for the same bytes as before.
pub proof fn lemma_store_grew<H: Hasher>(
    db0: Map<Seq<u8>, Seq<u8>>,
    db1: Map<Seq<u8>, Seq<u8>>,
    pairs: Seq<(Vec<u8>, Vec<u8>)>,
    files: Map<Seq<char>, Seq<SpanView>>,
)
    requires
        grows_from(db0, db1, pairs),
        hashes_consistent::<H>(db0),
        forall|j: int| 0 <= j < pairs.len() ==> (#[trigger] pairs[j]).0@ == H::spec_hash(pairs[j].1@),
        forall|n: Seq<char>| #[trigger] files.contains_key(n) ==> spans_stored(db0, files[n]),
    ensures
        hashes_consistent::<H>(db1),
        forall|n: Seq<char>|
            #[trigger] files.contains_key(n) ==> spans_stored(db1, files[n]) && bytes_of(db1, files[n])
                == bytes_of(db0, files[n]),
{
    assert forall|k: Seq<u8>| #[trigger] db1.contains_key(k) implies H::spec_hash(db1[k]) == k by {
        if !db0.contains_key(k) {
            let i = choose|i: int| 0 <= i < pairs.len() && pairs[i].0@ == k && pairs[i].1@ == db1[k];
            assert(pairs[i].0@ == H::spec_hash(pairs[i].1@));
        }
    }
    assert forall|n: Seq<char>| #[trigger] files.contains_key(n) implies spans_stored(db1, files[n])
        && bytes_of(db1, files[n]) == bytes_of(db0, files[n]) by {
        let s = files[n];
        assert(spans_stored(db0, s));
        assert forall|i: int| 0 <= i < s.len() implies db1.contains_key(#[trigger] s[i].0) && db1[s[i].0].len() == s[i].2 && s[i].2 > 0 by {
            assert(db0.contains_key(s[i].0));
        }
        assert forall|i: int| 0 <= i < s.len() implies db0.contains_key(#[trigger] s[i].0) by {
        }
        lemma_bytes_of_agree(db0, db1, s);
    }
}

/// Spans appended for the chunks of `buf`, whose payloads the store holds
/// under their hashes, stand for the bytes that the chunks cover.
pub proof fn lemma_appended<H: Hasher>(
    db: Map<Seq<u8>, Seq<u8>>,
    s: Seq<SpanView>,
    t: Seq<SpanView>,
    chunks: Seq<Chunk>,
    buf: Seq<u8>,
    spans: Seq<Span>,
    pairs: Seq<(Vec<u8>, Vec<u8>)>,
)
    requires
        hashes_consistent::<H>(db),
        spans_stored(db, s),
        tiles_prefix(chunks, buf.len()),
        chunks.len() == spans.len(),
        pairs.len() == spans.len(),
        t.len() == s.len() + spans.len(),
        t.subrange(0, s.len() as int) == s,
        forall|j: int|
            0 <= j < spans.len() ==> #[trigger] t[s.len() + j].0 == spans[j].hash@ && t[s.len() + j].2
                == spans[j].length,
        forall|j: int|
            0 <= j < pairs.len() ==> (#[trigger] pairs[j]).1@ == buf.subrange(
                chunks[j].start() as int,
                chunks[j].end() as int,
            ) && pairs[j].0@ == H::spec_hash(pairs[j].1@) && spans[j].hash@ == pairs[j].0@
                && spans[j].length == chunks[j].len(),
        forall|j: int| 0 <= j < pairs.len() ==> db.contains_key(#[trigger] pairs[j].0@),
    ensures
        spans_stored(db, t),
        bytes_of(db, t) == bytes_of(db, s) + buf.subrange(0, covered(chunks) as int),
{
    let u = t.subrange(s.len() as int, t.len() as int);
    assert(t =~= s + u);
    assert forall|j: int| 0 <= j < u.len() implies db.contains_key(#[trigger] u[j].0) && db[u[j].0]
        == buf.subrange(chunks[j].start() as int, chunks[j].end() as int) by {
        assert(u[j] == t[s.len() + j]);
        assert(t[s.len() + j].0 == spans[j].hash@);
        assert(db.contains_key(pairs[j].0@));
        assert(H::spec_hash(db[pairs[j].0@]) == pairs[j].0@);
        H::lemma_collision_free(db[u[j].0], pairs[j].1@);
    }
    lemma_chunk_bytes(db, u, chunks, buf);
    lemma_bytes_of_append(db, s, u);
    assert forall|i: int| 0 <= i < t.len() implies db.contains_key(#[trigger] t[i].0) && db[t[i].0].len()
        == t[i].2 && t[i].2 > 0 by {
        if i < s.len() {
            assert(t[i] == t.subrange(0, s.len() as int)[i]);
            assert(db.contains_key(s[i].0));
        } else {
            let j = i - s.len();
            assert(t[i] == u[j]);
            assert(t[s.len() + j].0 == spans[j].hash@);
            assert(db[u[j].0] == buf.subrange(chunks[j].start() as int, chunks[j].end() as int));
            assert(chunks[j].end() <= buf.len());
            assert(pairs[j].1@ == buf.subrange(chunks[j].start() as int, chunks[j].end() as int));
            assert(spans[j].length == chunks[j].len());
            assert(chunks[j].len() > 0);
        }
    }
}

/// The spans of a block read are spans of the file, taken in order from the
/// first one at or after the offset.
pub proof fn lemma_block_within(s: Seq<SpanView>, offset: nat)
    ensures
        skip_count(s, offset) <= s.len(),
        take_count(s.subrange(skip_count(s, offset) as int, s.len() as int), SEG_SIZE as nat)
            <= s.len() - skip_count(s, offset),
        forall|i: int|
            0 <= i < block_of(s, offset).len() ==> #[trigger] block_of(s, offset)[i] == s[skip_count(
                s,
                offset,
            ) + i],
{
    lemma_skip_count_le(s, offset);
    let a = skip_count(s, offset) as int;
    lemma_take_count_le(s.subrange(a, s.len() as int), SEG_SIZE as nat);
}

pub proof fn lemma_skip_count_le(s: Seq<SpanView>, offset: nat)
    ensures
        skip_count(s, offset) <= s.len(),
    decreases s.len(),
{
    if s.len() > 0 {
        lemma_skip_count_le(s.drop_first(), offset);
    }
}

pub proof fn lemma_take_count_le(s: Seq<SpanView>, budget: nat)
    ensures
        take_count(s, budget) <= s.len(),
    decreases s.len(),
{
    if s.len() > 0 && s[0].2 <= budget {
        lemma_take_count_le(s.drop_first(), (budget - s[0].2) as nat);
    }
}

/// The concatenation of `parts`, in order.
pub open spec fn joined(parts: Seq<Seq<u8>>) -> Seq<u8>
    decreases parts.len(),
{
    if parts.len() == 0 {
        Seq::empty()
    } else {
        joined(parts.drop_last()) + parts.last()
    }
}

/// Round trip of a file: when each write through a handle on an empty file
/// turns the file's content followed by the handle's waiting bytes into that
/// followed by the written bytes (as `write_to_file` ensures), and closing
/// appends the waiting bytes to the content (as `close_file` ensures), the
/// closed file holds exactly the concatenation of the writes.
pub proof fn lemma_round_trip(
    parts: Seq<Seq<u8>>,
    contents: Seq<Seq<u8>>,
    waiting: Seq<Seq<u8>>,
    closed: Seq<u8>,
)
    requires
        contents.len() == parts.len() + 1,
        waiting.len() == parts.len() + 1,
        contents[0] == Seq::<u8>::empty(),
        waiting[0] == Seq::<u8>::empty(),
        forall|i: int|
            0 <= i < parts.len() ==> #[trigger] contents[i + 1] + waiting[i + 1] == contents[i]
                + waiting[i] + parts[i],
        closed == contents[parts.len() as int] + waiting[parts.len() as int],
    ensures
        closed == joined(parts),
{
    lemma_round_trip_prefix(parts, contents, waiting, parts.len() as int);
    assert(parts.subrange(0, parts.len() as int) =~= parts);
}

proof fn lemma_round_trip_prefix(
    parts: Seq<Seq<u8>>,
    contents: Seq<Seq<u8>>,
    waiting: Seq<Seq<u8>>,
    n: int,
)
    requires
        contents.len() == parts.len() + 1,
        waiting.len() == parts.len() + 1,
        contents[0] == Seq::<u8>::empty(),
        waiting[0] == Seq::<u8>::empty(),
        forall|i: int|
            0 <= i < parts.len() ==> #[trigger] contents[i + 1] + waiting[i + 1] == contents[i]
                + waiting[i] + parts[i],
        0 <= n <= parts.len(),
    ensures
        contents[n] + waiting[n] == joined(parts.subrange(0, n)),
    decreases n,
{
    if n == 0 {
        assert(contents[0] + waiting[0] =~= Seq::<u8>::empty());
    } else {
        lemma_round_trip_prefix(parts, contents, waiting, n - 1);
        assert(parts.subrange(0, n).drop_last() =~= parts.subrange(0, n - 1));
        assert(contents[(n - 1) + 1] + waiting[(n - 1) + 1] == contents[n - 1] + waiting[n - 1] + parts[n - 1]);
        assert(joined(parts.subrange(0, n)) =~= joined(parts.subrange(0, n - 1)) + parts[n - 1]);
    }
}

pub proof fn lemma_bytes_len(db: Map<Seq<u8>, Seq<u8>>, s: Seq<SpanView>)
    requires
        spans_stored(db, s),
    ensures
        bytes_of(db, s).len() == total_len(s),
    decreases s.len(),
{
    if s.len() > 0 {
        let p = s.drop_last();
        assert forall|i: int| 0 <= i < p.len() implies db.contains_key(#[trigger] p[i].0) && db[p[i].0].len()
            == p[i].2 && p[i].2 > 0 by {
            assert(p[i] == s[i]);
        }
        lemma_bytes_len(db, p);
        assert(s.last() == s[s.len() - 1]);
    }
}

} // verus!

verus! {

/// Collects a chunker, a hasher and a store, then builds a file system.
pub struct FileSystemBuilder<C: Chunker, H: Hasher, B: Database> {
    chunker: Option<C>,
    hasher: Option<H>,
    base: Option<B>,
}

impl<C: Chunker, H: Hasher, B: Database> FileSystemBuilder<C, H, B> {
    /// Every store given is well formed and stores payloads under their
    /// hashes.
    pub closed spec fn well_formed(&self) -> bool {
        self.base matches Some(b) ==> b.well_formed() && hashes_consistent::<H>(b.contents())
    }

    pub closed spec fn has_chunker(&self) -> bool {
        self.chunker is Some
    }

    pub closed spec fn has_hasher(&self) -> bool {
        self.hasher is Some
    }

    pub closed spec fn has_base(&self) -> bool {
        self.base is Some
    }

    /// Whether the store given never fails.
    pub closed spec fn base_reliable(&self) -> bool {
        self.base matches Some(b) && b.reliable()
    }

    /// Whether all three parts were given.
    pub open spec fn complete(&self) -> bool {
        self.has_chunker() && self.has_hasher() && self.has_base()
    }

    pub fn new() -> (r: Self)
        ensures
            r.well_formed(),
            !r.complete(),
    {
        FileSystemBuilder { chunker: None, hasher: None, base: None }
    }

    pub fn with_chunker(self, chunker: C) -> (r: Self)
        requires
            self.well_formed(),
        ensures
            r.well_formed(),
            r.has_chunker() && r.has_hasher() == self.has_hasher() && r.has_base() == self.has_base(),
            r.base_reliable() == self.base_reliable(),
    {
        FileSystemBuilder { chunker: Some(chunker), hasher: self.hasher, base: self.base }
    }

    pub fn with_hasher(self, hasher: H) -> (r: Self)
        requires
            self.well_formed(),
        ensures
            r.well_formed(),
            r.has_hasher() && r.has_chunker() == self.has_chunker() && r.has_base() == self.has_base(),
            r.base_reliable() == self.base_reliable(),
    {
        FileSystemBuilder { chunker: self.chunker, hasher: Some(hasher), base: self.base }
    }

    pub fn with_base(self, base: B) -> (r: Self)
        requires
            self.well_formed(),
            base.well_formed(),
            hashes_consistent::<H>(base.contents()),
        ensures
            r.well_formed(),
            r.has_base() && r.has_chunker() == self.has_chunker() && r.has_hasher() == self.has_hasher(),
            r.base_reliable() == base.reliable(),
    {
        FileSystemBuilder { chunker: self.chunker, hasher: self.hasher, base: Some(base) }
    }

    /// The file system, with no files; `NotFound` if a part is missing.
    pub fn build(self) -> (r: Result<FileSystem<C, H, B>, Error>)
        requires
            self.well_formed(),
        ensures
            r is Ok <==> self.complete(),
            r matches Err(e) ==> e.kind == ErrorKind::NotFound,
            r matches Ok(fs) ==> fs.well_formed() && fs.files() == Map::<
                Seq<char>,
                Seq<SpanView>,
            >::empty() && fs.store_reliable() == self.base_reliable(),
    {
        match (self.chunker, self.hasher, self.base) {
            (Some(c), Some(h), Some(b)) => Ok(FileSystem::new(c, h, b)),
            _ => Err(Error::new(ErrorKind::NotFound)),
        }
    }
}

} // verus!
