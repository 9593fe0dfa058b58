use vstd::prelude::*;

use crate::assoc::{as_map, has_key, lemma_as_map_index, lemma_as_map_push, lemma_as_map_update, unique_keys};
use crate::bytes::copy_bytes;
use crate::clock::WriteMeasurements;
use crate::error::{Error, ErrorKind};
use crate::SEG_SIZE;

verus! {

/// A span as the file layer sees it: hash, offset in the file, length.
pub type SpanView = (Seq<u8>, nat, nat);

/// Total length of `spans`.
pub open spec fn total_len(spans: Seq<SpanView>) -> nat
    decreases spans.len(),
{
    if spans.len() == 0 {
        0
    } else {
        total_len(spans.drop_last()) + spans.last().2
    }
}

/// Each span starts where the spans before it end: together they tile the
/// file from byte 0.
pub open spec fn spans_tile(spans: Seq<SpanView>) -> bool {
    forall|i: int| 0 <= i < spans.len() ==> #[trigger] spans[i].1 == total_len(spans.subrange(0, i))
}

pub proof fn lemma_total_len_push(s: Seq<SpanView>, x: SpanView)
    ensures
        total_len(s.push(x)) == total_len(s) + x.2,
{
    assert(s.push(x).drop_last() =~= s);
}

pub proof fn lemma_total_len_append(x: Seq<SpanView>, y: Seq<SpanView>)
    ensures
        total_len(x + y) == total_len(x) + total_len(y),
    decreases y.len(),
{
    if y.len() == 0 {
        assert(x + y =~= x);
    } else {
        lemma_total_len_append(x, y.drop_last());
        assert((x + y).drop_last() =~= x + y.drop_last());
        assert((x + y).last() == y.last());
    }
}

pub proof fn lemma_total_len_prefix_step(s: Seq<SpanView>, i: int)
    requires
        0 <= i < s.len(),
    ensures
        total_len(s.subrange(0, i + 1)) == total_len(s.subrange(0, i)) + s[i].2,
{
    assert(s.subrange(0, i + 1) =~= s.subrange(0, i).push(s[i]));
    lemma_total_len_push(s.subrange(0, i), s[i]);
}

pub proof fn lemma_total_len_prefix_le(s: Seq<SpanView>, i: int)
    requires
        0 <= i <= s.len(),
    ensures
        total_len(s.subrange(0, i)) <= total_len(s),
    decreases s.len() - i,
{
    if i < s.len() {
        lemma_total_len_prefix_step(s, i);
        lemma_total_len_prefix_le(s, i + 1);
    } else {
        assert(s.subrange(0, i) =~= s);
    }
}

/// A tiled span ends within the file.
pub proof fn lemma_span_end_le_total(s: Seq<SpanView>, i: int)
    requires
        spans_tile(s),
        0 <= i < s.len(),
    ensures
        s[i].1 + s[i].2 == total_len(s.subrange(0, i + 1)),
        s[i].1 + s[i].2 <= total_len(s),
{
    lemma_total_len_prefix_step(s, i);
    lemma_total_len_prefix_le(s, i + 1);
}

/// Appending a span at the end of a tiled list keeps it tiled.
pub proof fn lemma_spans_tile_push(s: Seq<SpanView>, h: Seq<u8>, len: nat)
    requires
        spans_tile(s),
    ensures
        spans_tile(s.push((h, total_len(s), len))),
        total_len(s.push((h, total_len(s), len))) == total_len(s) + len,
{
    let t = s.push((h, total_len(s), len));
    lemma_total_len_push(s, (h, total_len(s), len));
    assert forall|i: int| 0 <= i < t.len() implies #[trigger] t[i].1 == total_len(t.subrange(0, i)) by {
        if i < s.len() {
            assert(t.subrange(0, i) =~= s.subrange(0, i));
        } else {
            assert(t.subrange(0, i) =~= s);
        }
    }
}

/// Every span has at least one byte.
pub open spec fn spans_nonempty(spans: Seq<SpanView>) -> bool {
    forall|i: int| 0 <= i < spans.len() ==> #[trigger] spans[i].2 > 0
}

/// Number of leading spans whose offset is below `offset`.
pub open spec fn skip_count(spans: Seq<SpanView>, offset: nat) -> nat
    decreases spans.len(),
{
    if spans.len() > 0 && spans[0].1 < offset {
        1 + skip_count(spans.drop_first(), offset)
    } else {
        0
    }
}

/// Number of leading spans whose lengths add up to at most `budget`.
pub open spec fn take_count(spans: Seq<SpanView>, budget: nat) -> nat
    decreases spans.len(),
{
    if spans.len() > 0 && spans[0].2 <= budget {
        1 + take_count(spans.drop_first(), (budget - spans[0].2) as nat)
    } else {
        0
    }
}

pub proof fn lemma_skip_count_step(s: Seq<SpanView>, a: int, offset: nat)
    requires
        0 <= a < s.len(),
    ensures
        skip_count(s.subrange(a, s.len() as int), offset) == if s[a].1 < offset {
            1 + skip_count(s.subrange(a + 1, s.len() as int), offset)
        } else {
            0
        },
{
    assert(s.subrange(a, s.len() as int).drop_first() =~= s.subrange(a + 1, s.len() as int));
}

pub proof fn lemma_take_count_step(s: Seq<SpanView>, a: int, budget: nat)
    requires
        0 <= a < s.len(),
    ensures
        take_count(s.subrange(a, s.len() as int), budget) == if s[a].2 <= budget {
            1 + take_count(s.subrange(a + 1, s.len() as int), (budget - s[a].2) as nat)
        } else {
            0
        },
{
    assert(s.subrange(a, s.len() as int).drop_first() =~= s.subrange(a + 1, s.len() as int));
}

/// The hashes of `spans`, in order.
pub open spec fn hashes_of(spans: Seq<SpanView>) -> Seq<Seq<u8>> {
    spans.map_values(|s: SpanView| s.0)
}

/// The spans that a block read starting at `offset` returns: it skips the
/// spans that begin before `offset`, then takes spans while their total
/// stays within `SEG_SIZE`.
pub open spec fn block_of(spans: Seq<SpanView>, offset: nat) -> Seq<SpanView> {
    let a = skip_count(spans, offset) as int;
    let rest = spans.subrange(a, spans.len() as int);
    rest.subrange(0, take_count(rest, SEG_SIZE as nat) as int)
}

/// A chunk that was hashed and stored: its hash and its length.
pub struct Span {
    pub hash: Vec<u8>,
    pub length: usize,
}

impl Span {
    pub fn new(hash: Vec<u8>, length: usize) -> (r: Self)
        ensures
            r.hash@ == hash@,
            r.length == length,
    {
        Span { hash, length }
    }
}

/// Total length of `spans`.
pub open spec fn spans_len(spans: Seq<Span>) -> nat
    decreases spans.len(),
{
    if spans.len() == 0 {
        0
    } else {
        spans_len(spans.drop_last()) + spans.last().length as nat
    }
}

pub proof fn lemma_spans_len_prefix_step(s: Seq<Span>, i: int)
    requires
        0 <= i < s.len(),
    ensures
        spans_len(s.subrange(0, i + 1)) == spans_len(s.subrange(0, i)) + s[i].length,
{
    assert(s.subrange(0, i + 1).drop_last() =~= s.subrange(0, i));
}

pub proof fn lemma_spans_len_prefix_le(s: Seq<Span>, i: int)
    requires
        0 <= i <= s.len(),
    ensures
        spans_len(s.subrange(0, i)) <= spans_len(s),
    decreases s.len() - i,
{
    if i < s.len() {
        lemma_spans_len_prefix_step(s, i);
        lemma_spans_len_prefix_le(s, i + 1);
    } else {
        assert(s.subrange(0, i) =~= s);
    }
}

/// Hashed span, starting at `offset` in its file.
#[derive(Debug)]
pub struct FileSpan {
    hash: Vec<u8>,
    offset: usize,
    length: usize,
}

impl FileSpan {
    pub closed spec fn view(&self) -> SpanView {
        (self.hash@, self.offset as nat, self.length as nat)
    }

    pub fn hash(&self) -> (r: &Vec<u8>)
        ensures
            r@ == self.view().0,
    {
        &self.hash
    }

    pub fn offset(&self) -> (r: usize)
        ensures
            r == self.view().1,
    {
        self.offset
    }

    pub fn length(&self) -> (r: usize)
        ensures
            r == self.view().2,
    {
        self.length
    }
}

/// A named file: its spans in order.
pub struct File {
    name: String,
    spans: Vec<FileSpan>,
}

impl File {
    pub closed spec fn span_views(&self) -> Seq<SpanView> {
        self.spans@.map_values(|s: FileSpan| s.view())
    }

    pub closed spec fn name_view(&self) -> Seq<char> {
        self.name@
    }

    fn new(name: String) -> (r: Self)
        ensures
            r.name_view() == name@,
            r.span_views() == Seq::<SpanView>::empty(),
    {
        let r = File { name, spans: Vec::new() };
        assert(r.span_views() =~= Seq::<SpanView>::empty());
        r
    }

    pub fn name(&self) -> (r: &String)
        ensures
            r@ == self.name_view(),
    {
        &self.name
    }

    pub fn spans(&self) -> (r: &Vec<FileSpan>)
        ensures
            r@.map_values(|s: FileSpan| s.view()) == self.span_views(),
    {
        &self.spans
    }
}

/// Handle for an opened file: the file's name, a byte offset, and the bytes
/// written through it that do not form a complete chunk yet.
#[derive(Debug)]
pub struct FileHandle {
    file_name: String,
    offset: usize,
    pending: Vec<u8>,
    measurements: WriteMeasurements,
}

impl FileHandle {
    pub closed spec fn name_view(&self) -> Seq<char> {
        self.file_name@
    }

    pub closed spec fn position(&self) -> nat {
        self.offset as nat
    }

    pub closed spec fn pending_view(&self) -> Seq<u8> {
        self.pending@
    }

    fn new(name: &String) -> (r: Self)
        ensures
            r.name_view() == name@,
            r.position() == 0,
            r.pending_view() == Seq::<u8>::empty(),
    {
        FileHandle {
            file_name: name.clone(),
            offset: 0,
            pending: Vec::new(),
            measurements: WriteMeasurements::zero(),
        }
    }

    pub fn file_name(&self) -> (r: &String)
        ensures
            r@ == self.name_view(),
    {
        &self.file_name
    }

    pub fn offset(&self) -> (r: usize)
        ensures
            r == self.position(),
    {
        self.offset
    }

    /// Takes the bytes waiting for the next chunk out of the handle.
    pub(crate) fn take_pending(&mut self) -> (r: Vec<u8>)
        ensures
            r@ == old(self).pending_view(),
            final(self).pending_view() == Seq::<u8>::empty(),
            final(self).name_view() == old(self).name_view(),
            final(self).position() == old(self).position(),
    {
        let mut out: Vec<u8> = Vec::new();
        std::mem::swap(&mut out, &mut self.pending);
        out
    }

    /// Time spent so far writing through this handle.
    pub fn measurements(&self) -> WriteMeasurements {
        self.measurements
    }

    /// Adds `m` to the time spent writing through this handle.
    pub(crate) fn add_measurements(&mut self, m: WriteMeasurements)
        ensures
            final(self).pending_view() == old(self).pending_view(),
            final(self).name_view() == old(self).name_view(),
            final(self).position() == old(self).position(),
    {
        self.measurements = self.measurements.combined(m);
    }

    /// Puts bytes that wait for the next chunk into the handle.
    pub(crate) fn set_pending(&mut self, bytes: Vec<u8>)
        ensures
            final(self).pending_view() == bytes@,
            final(self).name_view() == old(self).name_view(),
            final(self).position() == old(self).position(),
    {
        self.pending = bytes;
    }
}

/// Layer that holds all files, each under a distinct name.
pub struct FileLayer {
    files: Vec<File>,
}

impl FileLayer {
    /// The files as (name, spans) pairs.
    pub closed spec fn entries(&self) -> Seq<(Seq<char>, Seq<SpanView>)> {
        self.files@.map_values(|f: File| (f.name_view(), f.span_views()))
    }

    /// Each file name with the spans of that file.
    pub open spec fn view(&self) -> Map<Seq<char>, Seq<SpanView>> {
        as_map(self.entries())
    }

    pub closed spec fn well_formed(&self) -> bool {
        &&& unique_keys(self.entries())
        &&& forall|i: int| 0 <= i < self.entries().len() ==> spans_tile(#[trigger] self.entries()[i].1)
        &&& forall|i: int| 0 <= i < self.entries().len() ==> total_len(#[trigger] self.entries()[i].1) <= usize::MAX
        &&& forall|i: int| 0 <= i < self.entries().len() ==> spans_nonempty(#[trigger] self.entries()[i].1)
    }

    /// Every span of every file is non-empty.
    pub proof fn lemma_spans_nonempty(&self, name: Seq<char>)
        requires
            self.well_formed(),
            self.view().contains_key(name),
        ensures
            spans_nonempty(self.view()[name]),
    {
        let i = choose|i: int| 0 <= i < self.entries().len() && self.entries()[i].0 == name;
        lemma_as_map_index(self.entries(), i);
    }

    pub fn new() -> (r: Self)
        ensures
            r.well_formed(),
            r.view() == Map::<Seq<char>, Seq<SpanView>>::empty(),
    {
        let r = FileLayer { files: Vec::new() };
        assert(r.view() =~= Map::<Seq<char>, Seq<SpanView>>::empty());
        r
    }

    /// Position of the file called `name`.
    fn find(&self, name: &String) -> (r: Option<usize>)
        ensures
            r matches Some(i) ==> i < self.entries().len() && self.entries()[i as int].0 == name@,
            r is None ==> !has_key(self.entries(), name@),
    {
        let mut i: usize = 0;
        while i < self.files.len()
            invariant
                i <= self.files@.len(),
                self.entries().len() == self.files@.len(),
                forall|j: int| 0 <= j < i ==> self.entries()[j].0 != name@,
            decreases self.files@.len() - i,
        {
            if self.files[i].name == *name {
                return Some(i);
            }
            i = i + 1;
        }
        None
    }

    /// The file called `name`, if there is one.
    pub fn find_file(&self, name: &String) -> (r: Option<&File>)
        requires
            self.well_formed(),
        ensures
            r is Some <==> self.view().contains_key(name@),
            r matches Some(f) ==> f.name_view() == name@ && f.span_views() == self.view()[name@],
    {
        match self.find(name) {
            Some(i) => {
                proof {
                    lemma_as_map_index(self.entries(), i as int);
                }
                Some(&self.files[i])
            },
            None => None,
        }
    }

    /// Creates an empty file and returns a handle on it.
    pub fn create(&mut self, name: String) -> (r: Result<FileHandle, Error>)
        requires
            old(self).well_formed(),
        ensures
            final(self).well_formed(),
            old(self).view().contains_key(name@) ==> r == Err::<FileHandle, Error>(
                Error { kind: ErrorKind::AlreadyExists },
            ) && final(self).view() == old(self).view(),
            !old(self).view().contains_key(name@) ==> r is Ok && final(self).view() == old(
                self,
            ).view().insert(name@, Seq::<SpanView>::empty()),
            r matches Ok(h) ==> h.name_view() == name@ && h.position() == 0 && h.pending_view()
                == Seq::<u8>::empty(),
    {
        match self.find(&name) {
            Some(i) => {
                proof {
                    lemma_as_map_index(self.entries(), i as int);
                }
                Err(Error::new(ErrorKind::AlreadyExists))
            },
            None => {
                let ghost before = self.entries();
                let handle = FileHandle::new(&name);
                let file = File::new(name);
                let ghost entry = (file.name_view(), file.span_views());
                self.files.push(file);
                proof {
                    assert(self.entries() =~= before.push(entry));
                    lemma_as_map_push(before, entry.0, entry.1);
                    assert forall|i: int| 0 <= i < self.entries().len() implies spans_tile(
                        #[trigger] self.entries()[i].1,
                    ) && total_len(self.entries()[i].1) <= usize::MAX by {
                        if i < before.len() {
                            assert(self.entries()[i] == before[i]);
                        }
                    }
                }
                Ok(handle)
            },
        }
    }

    /// Appends `spans` to the handle's file, each at the handle's offset,
    /// which advances by the span's length. A writing handle stands at the
    /// end of its file.
    pub fn write(&mut self, handle: &mut FileHandle, spans: Vec<Span>)
        requires
            old(self).well_formed(),
            old(self).view().contains_key(old(handle).name_view()),
            old(handle).position() == total_len(old(self).view()[old(handle).name_view()]),
            total_len(old(self).view()[old(handle).name_view()]) + spans_len(spans@) <= usize::MAX,
            forall|j: int| 0 <= j < spans@.len() ==> #[trigger] spans@[j].length > 0,
        ensures
            final(self).well_formed(),
            ({
                let name = old(handle).name_view();
                let s = old(self).view()[name];
                let t = final(self).view()[name];
                &&& final(self).view() == old(self).view().insert(name, t)
                &&& t.len() == s.len() + spans@.len()
                &&& t.subrange(0, s.len() as int) == s
                &&& forall|j: int|
                    0 <= j < spans@.len() ==> #[trigger] t[s.len() + j].0 == spans@[j].hash@
                        && t[s.len() + j].2 == spans@[j].length
                &&& total_len(t) == total_len(s) + spans_len(spans@)
                &&& final(handle).position() == total_len(t)
            }),
            final(handle).name_view() == old(handle).name_view(),
            final(handle).pending_view() == old(handle).pending_view(),
    {
        let ghost name = handle.name_view();
        let ghost entries0 = self.entries();
        let i = match self.find(&handle.file_name) {
            Some(i) => i,
            None => {
                proof {
                    assert(has_key(entries0, name));
                }
                return;
            },
        };
        proof {
            lemma_as_map_index(entries0, i as int);
            assert(spans_tile(entries0[i as int].1));
        }
        let ghost s = entries0[i as int].1;
        let mut file = self.files.remove(i);
        assert(file.span_views() == s);
        let mut end: usize = handle.offset;
        proof {
            assert(spans@.subrange(0, 0) =~= Seq::<Span>::empty());
        }
        let mut k: usize = 0;
        while k < spans.len()
            invariant
                k <= spans@.len(),
                file.name_view() == name,
                file.span_views().len() == s.len() + k,
                file.span_views().subrange(0, s.len() as int) == s,
                forall|j: int|
                    0 <= j < k ==> #[trigger] file.span_views()[s.len() + j] == (spans@[j].hash@, file.span_views()[s.len() + j].1, spans@[j].length as nat),
                spans_tile(file.span_views()),
                spans_nonempty(file.span_views()),
                forall|j: int| 0 <= j < spans@.len() ==> #[trigger] spans@[j].length > 0,
                end == total_len(file.span_views()),
                end == total_len(s) + spans_len(spans@.subrange(0, k as int)),
                total_len(s) + spans_len(spans@) <= usize::MAX,
            decreases spans@.len() - k,
        {
            proof {
                lemma_spans_len_prefix_step(spans@, k as int);
                lemma_spans_len_prefix_le(spans@, k + 1);
            }
            let ghost before = file.span_views();
            let hash = copy_bytes(spans[k].hash.as_slice());
            let fs = FileSpan { hash, offset: end, length: spans[k].length };
            file.spans.push(fs);
            proof {
                assert(file.span_views() =~= before.push((spans@[k as int].hash@, total_len(before), spans@[k as int].length as nat)));
                lemma_spans_tile_push(before, spans@[k as int].hash@, spans@[k as int].length as nat);
                assert forall|q: int| 0 <= q < file.span_views().len() implies #[trigger] file.span_views()[q].2 > 0 by {
                    if q < before.len() {
                        assert(file.span_views()[q] == before[q]);
                    }
                }
                assert forall|j: int| 0 <= j <= k implies #[trigger] file.span_views()[s.len() + j] == (spans@[j].hash@, file.span_views()[s.len() + j].1, spans@[j].length as nat) by {
                    if j < k {
                        assert(file.span_views()[s.len() + j] == before[s.len() + j]);
                    } else {
                        assert(file.span_views()[s.len() + j] == (spans@[k as int].hash@, total_len(before), spans@[k as int].length as nat));
                    }
                }
                assert(file.span_views().subrange(0, s.len() as int) =~= before.subrange(0, s.len() as int));
            }
            end = end + spans[k].length;
            k = k + 1;
        }
        proof {
            assert(spans@.subrange(0, k as int) =~= spans@);
        }
        let ghost t = file.span_views();
        self.files.insert(i, file);
        handle.offset = end;
        proof {
            assert(self.entries() =~= entries0.update(i as int, (name, t)));
            lemma_as_map_update(entries0, i as int, t);
            assert forall|j: int| 0 <= j < self.entries().len() implies spans_tile(
                #[trigger] self.entries()[j].1,
            ) && total_len(self.entries()[j].1) <= usize::MAX by {
                if j != i {
                    assert(self.entries()[j] == entries0[j]);
                }
            }
            lemma_as_map_index(self.entries(), i as int);
        }
    }

    /// All hashes of the handle's file, from beginning to end.
    pub fn read_complete(&self, handle: &FileHandle) -> (r: Vec<Vec<u8>>)
        requires
            self.well_formed(),
            self.view().contains_key(handle.name_view()),
        ensures
            r@.map_values(|h: Vec<u8>| h@) == hashes_of(self.view()[handle.name_view()]),
    {
        let i = match self.find(&handle.file_name) {
            Some(i) => i,
            None => {
                proof {
                    assert(has_key(self.entries(), handle.name_view()));
                }
                return Vec::new();
            },
        };
        proof {
            lemma_as_map_index(self.entries(), i as int);
        }
        let file = &self.files[i];
        let ghost s = file.span_views();
        assert(s == self.view()[handle.name_view()]);
        let mut out: Vec<Vec<u8>> = Vec::new();
        let mut k: usize = 0;
        while k < file.spans.len()
            invariant
                s == file.span_views(),
                k <= s.len(),
                out@.len() == k,
                forall|j: int| 0 <= j < k ==> (#[trigger] out@[j])@ == s[j].0,
            decreases s.len() - k,
        {
            out.push(copy_bytes(file.spans[k].hash.as_slice()));
            k = k + 1;
        }
        assert(out@.map_values(|h: Vec<u8>| h@) =~= hashes_of(s));
        out
    }

    /// Block-granularity read: the hashes of the spans that start at or
    /// after the handle's offset, as many as fit in `SEG_SIZE` bytes. The
    /// handle advances by the bytes of the spans returned; at the end of the
    /// file nothing is returned and the handle stays.
    #[verifier::rlimit(50)]
    pub fn read(&self, handle: &mut FileHandle) -> (r: Vec<Vec<u8>>)
        requires
            self.well_formed(),
            self.view().contains_key(old(handle).name_view()),
        ensures
            ({
                let s = self.view()[old(handle).name_view()];
                let b = block_of(s, old(handle).position());
                &&& r@.map_values(|h: Vec<u8>| h@) == hashes_of(b)
                &&& final(handle).position() == old(handle).position() + total_len(b)
            }),
            final(handle).name_view() == old(handle).name_view(),
            final(handle).pending_view() == old(handle).pending_view(),
    {
        let i = match self.find(&handle.file_name) {
            Some(i) => i,
            None => {
                proof {
                    assert(has_key(self.entries(), handle.name_view()));
                }
                return Vec::new();
            },
        };
        proof {
            lemma_as_map_index(self.entries(), i as int);
        }
        let file = &self.files[i];
        let ghost s = file.span_views();
        let ghost pos = handle.position();
        assert(s == self.view()[handle.name_view()]);
        assert(spans_tile(s) && total_len(s) <= usize::MAX);
        let n = file.spans.len();
        let mut a: usize = 0;
        proof {
            assert(s.subrange(0, s.len() as int) =~= s);
        }
        while a < n && file.spans[a].offset < handle.offset
            invariant
                s == file.span_views(),
                n == s.len(),
                a <= n,
                pos == handle.position(),
                skip_count(s, pos) == a + skip_count(s.subrange(a as int, n as int), pos),
            decreases n - a,
        {
            proof {
                lemma_skip_count_step(s, a as int, pos);
            }
            a = a + 1;
        }
        proof {
            if a < n {
                lemma_skip_count_step(s, a as int, pos);
            }
            let rest = s.subrange(a as int, n as int);
            assert(rest.subrange(0, 0) =~= Seq::<SpanView>::empty());
        }
        let ghost rest = s.subrange(a as int, n as int);
        let mut out: Vec<Vec<u8>> = Vec::new();
        let mut used: usize = 0;
        let mut j: usize = a;
        while j < n && file.spans[j].length <= SEG_SIZE - used
            invariant
                s == file.span_views(),
                n == s.len(),
                a <= j <= n,
                used <= SEG_SIZE,
                used == total_len(s.subrange(a as int, j as int)),
                rest == s.subrange(a as int, n as int),
                take_count(rest, SEG_SIZE as nat) == (j - a) + take_count(
                    s.subrange(j as int, n as int),
                    (SEG_SIZE - used) as nat,
                ),
                out@.len() == j - a,
                forall|q: int| 0 <= q < j - a ==> (#[trigger] out@[q])@ == s[a + q].0,
            decreases n - j,
        {
            proof {
                lemma_take_count_step(s, j as int, (SEG_SIZE - used) as nat);
                assert(s.subrange(a as int, j + 1) =~= s.subrange(a as int, j as int).push(s[j as int]));
                lemma_total_len_push(s.subrange(a as int, j as int), s[j as int]);
            }
            out.push(copy_bytes(file.spans[j].hash.as_slice()));
            used = used + file.spans[j].length;
            j = j + 1;
        }
        proof {
            if j < n {
                lemma_take_count_step(s, j as int, (SEG_SIZE - used) as nat);
            }
            let b = block_of(s, pos);
            assert(b =~= s.subrange(a as int, j as int));
            assert(out@.map_values(|h: Vec<u8>| h@) =~= hashes_of(b));
        }
        proof {
            if a < n {
                assert(s[a as int].1 >= pos);
                assert(s[a as int].1 == total_len(s.subrange(0, a as int)));
                assert(s.subrange(0, j as int) =~= s.subrange(0, a as int) + s.subrange(a as int, j as int));
                lemma_total_len_append(s.subrange(0, a as int), s.subrange(a as int, j as int));
                lemma_total_len_prefix_le(s, j as int);
            } else {
                assert(s.subrange(a as int, j as int).len() == 0);
            }
        }
        handle.offset = handle.offset + used;
        out
    }

    /// A handle at offset 0 on the file called `name`, if there is one.
    pub fn open(&self, name: &str) -> (r: Option<FileHandle>)
        requires
            self.well_formed(),
        ensures
            r is Some <==> self.view().contains_key(name@),
            r matches Some(h) ==> h.name_view() == name@ && h.position() == 0 && h.pending_view()
                == Seq::<u8>::empty(),
    {
        let owned = name.to_owned();
        match self.find_file(&owned) {
            Some(f) => Some(FileHandle::new(&f.name)),
            None => None,
        }
    }
}

} // verus!

verus! {

pub proof fn lemma_total_len_first(s: Seq<SpanView>)
    requires
        s.len() > 0,
    ensures
        total_len(s) == s[0].2 + total_len(s.drop_first()),
    decreases s.len(),
{
    if s.len() > 1 {
        lemma_total_len_first(s.drop_last());
        assert(s.drop_last().drop_first() =~= s.drop_first().drop_last());
        assert(s.drop_first().last() == s.last());
        assert(s.drop_last()[0] == s[0]);
    } else {
        assert(s.drop_first().len() == 0);
        assert(s.drop_last().len() == 0);
        assert(total_len(s.drop_first()) == 0);
        assert(total_len(s.drop_last()) == 0);
        assert(s.last() == s[0]);
    }
}

pub proof fn lemma_skip_count_exact(s: Seq<SpanView>, offset: nat, i: int)
    requires
        0 <= i <= s.len(),
        forall|j: int| 0 <= j < i ==> #[trigger] s[j].1 < offset,
        i < s.len() ==> s[i].1 >= offset,
    ensures
        skip_count(s, offset) == i,
    decreases i,
{
    if i > 0 {
        let t = s.drop_first();
        assert forall|j: int| 0 <= j < i - 1 implies #[trigger] t[j].1 < offset by {
            assert(t[j] == s[j + 1]);
        }
        if i - 1 < t.len() {
            assert(t[i - 1] == s[i]);
        }
        lemma_skip_count_exact(t, offset, i - 1);
        assert(s[0].1 < offset);
    }
}

pub proof fn lemma_take_count_bound(s: Seq<SpanView>, budget: nat)
    ensures
        take_count(s, budget) <= s.len(),
        total_len(s.subrange(0, take_count(s, budget) as int)) <= budget,
        s.len() > 0 && s[0].2 <= budget ==> take_count(s, budget) > 0,
    decreases s.len(),
{
    if s.len() > 0 && s[0].2 <= budget {
        let rest = s.drop_first();
        let b2 = (budget - s[0].2) as nat;
        lemma_take_count_bound(rest, b2);
        let n = take_count(rest, b2) as int;
        let p = s.subrange(0, n + 1);
        lemma_total_len_first(p);
        assert(p.drop_first() =~= rest.subrange(0, n));
    } else {
        assert(s.subrange(0, 0).len() == 0);
    }
}

/// Block reads from a span boundary: the block is the next spans in order,
/// at most `SEG_SIZE` bytes and at least one span while any is left, and the
/// handle lands on the boundary after it; at the end of the file the block
/// is empty.
pub proof fn lemma_block_from_boundary(s: Seq<SpanView>, i: int)
    requires
        spans_tile(s),
        0 <= i <= s.len(),
        forall|j: int| 0 <= j < s.len() ==> 0 < #[trigger] s[j].2 <= SEG_SIZE,
    ensures
        ({
            let b = block_of(s, total_len(s.subrange(0, i)));
            &&& i + b.len() <= s.len()
            &&& b == s.subrange(i, i + b.len())
            &&& total_len(b) <= SEG_SIZE
            &&& i < s.len() ==> b.len() > 0
            &&& i == s.len() ==> b.len() == 0
            &&& total_len(s.subrange(0, i)) + total_len(b) == total_len(s.subrange(0, i + b.len()))
        }),
{
    let pos = total_len(s.subrange(0, i));
    assert forall|j: int| 0 <= j < i implies #[trigger] s[j].1 < pos by {
        lemma_span_end_le_total(s, j);
        lemma_total_len_prefix_le(s.subrange(0, i), j + 1);
        assert(s.subrange(0, i).subrange(0, j + 1) =~= s.subrange(0, j + 1));
    }
    lemma_skip_count_exact(s, pos, i);
    let rest = s.subrange(i, s.len() as int);
    lemma_take_count_bound(rest, SEG_SIZE as nat);
    let t = take_count(rest, SEG_SIZE as nat) as int;
    let b = block_of(s, pos);
    assert(b =~= s.subrange(i, i + t));
    if i < s.len() {
        assert(rest[0] == s[i]);
    }
    assert(s.subrange(0, i + t) =~= s.subrange(0, i) + b);
    lemma_total_len_append(s.subrange(0, i), b);
}

} // verus!

verus! {

/// The spans of every file of a well-formed layer tile the file.
pub proof fn lemma_layer_tiles(layer: &FileLayer, name: Seq<char>)
    requires
        layer.well_formed(),
        layer.view().contains_key(name),
    ensures
        spans_tile(layer.view()[name]),
        total_len(layer.view()[name]) <= usize::MAX,
{
    let i = choose|i: int| 0 <= i < layer.entries().len() && layer.entries()[i].0 == name;
    lemma_as_map_index(layer.entries(), i);
}

} // verus!
