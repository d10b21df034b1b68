use crate::ordered_hash_map::{has_key, keys_unique, removed_key, OrderedHashMap};
use crate::selection::{SelectionItem, SelectionType};
use vstd::prelude::*;
use vstd::string::StringSliceAdditionalSpecFns;

verus! {

broadcast use vstd::laws_eq::group_laws_eq;

/// The version of the file layout that carries history and metadata.
pub const BINARY_VERSION: u32 = 2;

/// The little-endian bytes of `v`.
pub open spec fn le_bytes(v: u32) -> Seq<u8> {
    seq![(v % 256) as u8, ((v / 256) % 256) as u8, ((v / 65536) % 256) as u8, (v / 16777216) as u8]
}

/// The value of four little-endian bytes.
pub open spec fn le_value(b: Seq<u8>) -> int {
    b[0] + 256 * b[1] + 65536 * b[2] + 16777216 * b[3]
}

/// A history file's bytes: the version, then the encoded history and metadata.
pub open spec fn framed(payload: Seq<u8>) -> Seq<u8> {
    le_bytes(BINARY_VERSION) + payload
}

/// The bytes of a history file that holds `payload`.
pub fn encode_file(payload: &Vec<u8>) -> (r: Vec<u8>)
    ensures
        r@ == framed(payload@),
{
    let mut out: Vec<u8> = Vec::new();
    let v = BINARY_VERSION;
    out.push((v % 256) as u8);
    out.push(((v / 256) % 256) as u8);
    out.push(((v / 65536) % 256) as u8);
    out.push((v / 16777216) as u8);
    out.extend_from_slice(payload.as_slice());
    proof {
        assert(out@ =~= framed(payload@));
    }
    out
}

/// How to read a history file: first the versioned payload, if the file
/// starts with the current version; only if that fails, the whole file as
/// the older layout, a plain sequence of items.
pub struct LoadPlan {
    pub versioned: Option<Vec<u8>>,
    pub legacy: Vec<u8>,
}

/// The file starts with the current version.
pub open spec fn is_versioned(file: Seq<u8>) -> bool {
    file.len() >= 4 && le_value(file.subrange(0, 4)) == BINARY_VERSION
}

/// Decides how the bytes of a history file are to be decoded.
pub fn load_plan(file: &Vec<u8>) -> (r: LoadPlan)
    ensures
        r.legacy@ == file@,
        r.versioned is Some <==> is_versioned(file@),
        r.versioned matches Some(p) ==> p@ == file@.subrange(4, file@.len() as int),
{
    let mut legacy: Vec<u8> = Vec::new();
    legacy.extend_from_slice(file.as_slice());
    if file.len() < 4 {
        return LoadPlan { versioned: None, legacy };
    }
    let v: u64 = file[0] as u64 + 256 * (file[1] as u64) + 65536 * (file[2] as u64) + 16777216 * (file[3] as u64);
    proof {
        assert(le_value(file@.subrange(0, 4)) == v);
    }
    if v != BINARY_VERSION as u64 {
        return LoadPlan { versioned: None, legacy };
    }
    let mut payload: Vec<u8> = Vec::new();
    let mut i: usize = 4;
    while i < file.len()
        invariant
            4 <= i <= file@.len(),
            payload@ == file@.subrange(4, i as int),
        decreases file@.len() - i,
    {
        payload.push(file[i]);
        proof {
            assert(payload@ =~= file@.subrange(4, i + 1));
        }
        i += 1;
    }
    LoadPlan { versioned: Some(payload), legacy }
}

/// The outcome of loading a history file: the versioned payload's decoding
/// when there is one and it succeeded; otherwise the older layout is decoded,
/// only then, and its result taken when it succeeds; when both fail, the
/// versioned payload's error stands (the older layout's when the file carried
/// no version).
pub fn load_result<T, E, F: FnOnce() -> Result<T, E>>(versioned: Option<Result<T, E>>, legacy: F) -> (r: Result<
    T,
    E,
>)
    requires
        legacy.requires(()),
    ensures
        versioned matches Some(Ok(x)) ==> r == Ok::<T, E>(x),
        !(versioned matches Some(Ok(_))) ==> exists|l: Result<T, E>|
            #[trigger] legacy.ensures((), l) && (l is Ok ==> r == l) && (l is Err ==> (versioned matches Some(
                Err(e),
            ) ==> r == Err::<T, E>(e)) && (versioned is None ==> r == l)),
{
    match versioned {
        Some(Ok(x)) => Ok(x),
        Some(Err(e)) => match legacy() {
            Ok(y) => Ok(y),
            Err(_) => Err(e),
        },
        None => legacy(),
    }
}

/// A file written by `encode_file` is read back as its versioned payload.
pub proof fn lemma_frame_round_trip(payload: Seq<u8>)
    ensures
        is_versioned(framed(payload)),
        framed(payload).subrange(4, framed(payload).len() as int) == payload,
{
    let f = framed(payload);
    assert(f.subrange(0, 4) =~= le_bytes(BINARY_VERSION));
    assert(f.subrange(4, f.len() as int) =~= payload);
}

/// A history keyed by the items' ids: each item placed last in turn, a later
/// item replacing an earlier one of the same id.
pub open spec fn keyed(items: Seq<SelectionItem>) -> Seq<(u64, SelectionItem)>
    decreases items.len(),
{
    if items.len() == 0 {
        Seq::empty()
    } else {
        removed_key(keyed(items.drop_last()), items.last().id).push((items.last().id, items.last()))
    }
}

/// Keys the items of the older layout, a plain sequence, by their ids.
pub fn history_from_items(items: Vec<SelectionItem>) -> (r: OrderedHashMap<u64, SelectionItem>)
    ensures
        r.wf(),
        r@ == keyed(items@),
{
    let ghost all = items@;
    let mut history: OrderedHashMap<u64, SelectionItem> = OrderedHashMap::new();
    let mut rest = items;
    let n = rest.len();
    let mut i: usize = 0;
    while i < n
        invariant
            n == all.len(),
            i <= n,
            rest@ == all.subrange(i as int, n as int),
            history.wf(),
            history@ == keyed(all.subrange(0, i as int)),
        decreases n - i,
    {
        let item = rest.remove(0);
        proof {
            assert(item == all[i as int]);
            assert(all.subrange(0, i + 1).drop_last() =~= all.subrange(0, i as int));
            assert(rest@ =~= all.subrange(i + 1, n as int));
        }
        let id = item.id;
        history.push_back(id, item);
        i += 1;
    }
    proof {
        assert(all.subrange(0, n as int) =~= all);
    }
    history
}

/// With distinct ids, keying keeps every item and the order of the sequence.
pub proof fn lemma_keyed_keeps_order(items: Seq<SelectionItem>)
    requires
        forall|i: int, j: int| 0 <= i < j < items.len() ==> items[i].id != items[j].id,
    ensures
        keyed(items) == items.map_values(|it: SelectionItem| (it.id, it)),
        keys_unique(keyed(items)),
    decreases items.len(),
{
    if items.len() > 0 {
        let p = items.drop_last();
        lemma_keyed_keeps_order(p);
        let e = items.last();
        assert(!has_key(keyed(p), e.id)) by {
            if has_key(keyed(p), e.id) {
                let j = choose|j: int| 0 <= j < keyed(p).len() && #[trigger] keyed(p)[j].0 == e.id;
                assert(keyed(p)[j] == (p[j].id, p[j]));
                assert(items[j].id == e.id);
            }
        }
        assert(keyed(items) =~= items.map_values(|it: SelectionItem| (it.id, it)));
        crate::ordered_hash_map::lemma_prepend_unique(Seq::empty(), (e.id, e));
        assert forall|a: int, b: int| 0 <= a < b < keyed(items).len() implies keyed(items)[a].0
            != keyed(items)[b].0 by {
            assert(keyed(items)[a] == (items[a].id, items[a]));
            assert(keyed(items)[b] == (items[b].id, items[b]));
        }
    }
}

/// Where the histories of one selection are kept: the file and the file that
/// a save writes before it takes the file's place. Paths are bytes.
pub struct Persistence {
    file_path: Vec<u8>,
    temp_file_path: Vec<u8>,
}

/// The file name of a selection's history.
pub open spec fn history_file_name(t: SelectionType) -> Seq<u8> {
    match t {
        SelectionType::PRIMARY => "primary_selections".spec_bytes(),
        SelectionType::CLIPBOARD => "clipboard_selections".spec_bytes(),
    }
}

impl Persistence {
    pub closed spec fn file_bytes(&self) -> Seq<u8> {
        self.file_path@
    }

    pub closed spec fn temp_file_bytes(&self) -> Seq<u8> {
        self.temp_file_path@
    }

    /// The files of `selection_type`'s history in the directory `dir`.
    pub fn new(dir: &Vec<u8>, selection_type: SelectionType) -> (r: Persistence)
        ensures
            r.file_bytes() == dir@ + seq![47u8] + history_file_name(selection_type),
            r.temp_file_bytes() == r.file_bytes() + ".tmp".spec_bytes(),
    {
        let mut file_path: Vec<u8> = Vec::new();
        file_path.extend_from_slice(dir.as_slice());
        file_path.push(47u8);
        let name = match selection_type {
            SelectionType::PRIMARY => "primary_selections",
            SelectionType::CLIPBOARD => "clipboard_selections",
        };
        file_path.extend_from_slice(name.as_bytes());
        let mut temp_file_path: Vec<u8> = Vec::new();
        temp_file_path.extend_from_slice(file_path.as_slice());
        temp_file_path.extend_from_slice(".tmp".as_bytes());
        proof {
            assert(file_path@ =~= dir@ + seq![47u8] + history_file_name(selection_type));
            assert(temp_file_path@ =~= file_path@ + ".tmp".spec_bytes());
        }
        Persistence { file_path, temp_file_path }
    }

    /// The history file.
    pub fn file_path(&self) -> (r: &Vec<u8>)
        ensures
            r@ == self.file_bytes(),
    {
        &self.file_path
    }

    /// The file that a save writes first.
    pub fn temp_file_path(&self) -> (r: &Vec<u8>)
        ensures
            r@ == self.temp_file_bytes(),
    {
        &self.temp_file_path
    }
}

/// The size of one write of a save.
pub const WRITE_CHUNK: usize = 65536;

/// One step of a background save.
#[derive(Debug, Clone, Copy, PartialEq, Eq, Structural)]
pub enum WriteStep {
    /// Write bytes `from..to` of the file's content to the temporary file.
    Write { from: usize, to: usize },
    /// Flush the temporary file to disk.
    Sync,
    /// Move the temporary file over the history file.
    Rename,
    /// Stop; nothing more is done.
    Stop,
}

/// Where a save stands.
pub ghost struct SaveState {
    pub len: nat,
    pub written: nat,
    pub synced: bool,
    pub finished: bool,
}

/// The next step of a save, given whether it was cancelled meanwhile: a
/// finished or cancelled save stops; otherwise it writes the next chunk,
/// then syncs, then renames and finishes.
pub open spec fn next_step(s: SaveState, cancelled: bool) -> (SaveState, WriteStep) {
    if s.finished || cancelled {
        (SaveState { finished: true, ..s }, WriteStep::Stop)
    } else if s.written < s.len {
        let to = if s.written + WRITE_CHUNK < s.len {
            (s.written + WRITE_CHUNK) as nat
        } else {
            s.len
        };
        (SaveState { written: to, ..s }, WriteStep::Write { from: s.written as usize, to: to as usize })
    } else if !s.synced {
        (SaveState { synced: true, ..s }, WriteStep::Sync)
    } else {
        (SaveState { finished: true, ..s }, WriteStep::Rename)
    }
}

/// The steps a save takes from `s` when it sees the cancellation flags `flags`.
pub open spec fn run(s: SaveState, flags: Seq<bool>) -> Seq<WriteStep>
    decreases flags.len(),
{
    if flags.len() == 0 {
        Seq::empty()
    } else {
        let (t, w) = next_step(s, flags[0]);
        seq![w] + run(t, flags.drop_first())
    }
}

/// A background save of `len` bytes, driven step by step.
pub struct SaveJob {
    len: usize,
    written: usize,
    synced: bool,
    finished: bool,
}

impl SaveJob {
    pub closed spec fn state(&self) -> SaveState {
        SaveState {
            len: self.len as nat,
            written: self.written as nat,
            synced: self.synced,
            finished: self.finished,
        }
    }

    /// Well-formed: no more was written than there is.
    pub closed spec fn wf(&self) -> bool {
        self.written <= self.len
    }

    /// A save of `len` bytes that has done nothing yet.
    pub fn new(len: usize) -> (r: SaveJob)
        ensures
            r.wf(),
            r.state() == (SaveState { len: len as nat, written: 0, synced: false, finished: false }),
    {
        SaveJob { len, written: 0, synced: false, finished: false }
    }

    /// Takes the next step; `cancelled` tells whether a newer save superseded this one.
    pub fn step(&mut self, cancelled: bool) -> (r: WriteStep)
        requires
            old(self).wf(),
        ensures
            final(self).wf(),
            (final(self).state(), r) == next_step(old(self).state(), cancelled),
    {
        if self.finished || cancelled {
            self.finished = true;
            return WriteStep::Stop;
        }
        if self.written < self.len {
            let from = self.written;
            let to = if self.len - self.written > WRITE_CHUNK {
                self.written + WRITE_CHUNK
            } else {
                self.len
            };
            self.written = to;
            return WriteStep::Write { from, to };
        }
        if !self.synced {
            self.synced = true;
            return WriteStep::Sync;
        }
        self.finished = true;
        WriteStep::Rename
    }
}

/// A save renames only when it was not cancelled, after every byte was
/// written and synced; once cancelled or finished it never renames again;
/// and its writes cover the content from the start, in order, without gaps.
pub proof fn lemma_save_never_splices(s: SaveState, flags: Seq<bool>)
    requires
        s.written <= s.len <= usize::MAX,
    ensures
        forall|c: bool|
            #[trigger] next_step(s, c).1 == WriteStep::Rename ==> !c && s.written == s.len && s.synced
                && !s.finished,
        forall|c: bool|
            #[trigger] next_step(s, c).1 matches WriteStep::Write { from, to } ==> from == s.written && s.written
                < to <= s.len,
        s.finished ==> forall|i: int| 0 <= i < run(s, flags).len() ==> #[trigger] run(s, flags)[i]
            == WriteStep::Stop,
        flags.len() > 0 && flags[0] ==> forall|i: int|
            0 <= i < run(s, flags).len() ==> #[trigger] run(s, flags)[i] == WriteStep::Stop,
    decreases flags.len(),
{
    if flags.len() > 0 {
        let (t, w) = next_step(s, flags[0]);
        lemma_save_never_splices(t, flags.drop_first());
        if s.finished || flags[0] {
            assert(t.finished);
            assert forall|i: int| 0 <= i < run(s, flags).len() implies #[trigger] run(s, flags)[i] == WriteStep::Stop by {
                if i > 0 {
                    assert(run(s, flags)[i] == run(t, flags.drop_first())[i - 1]);
                }
            }
        }
    }
}

} // verus!
