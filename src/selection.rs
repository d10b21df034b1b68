use crate::ordered_hash_map::{
    has_key, keys_unique, lemma_prepend_unique, lemma_push_has_key, lemma_removed_entry, lemma_removed_key,
    lemma_step_keys, lemma_subrange_unique, lemma_value_of_last, removed_key, value_of, OrderedHashMap,
};
use crate::selection_data::{content_id_of, name_key, with_entry, SelectionData};
use crate::transfer_window_pool::{has_window, window_ids_unique, TransferWindow, TransferWindowPool};
use crate::config::{Binding, Modifier};
use crate::metadata::{PinError, SelectionMetadata};
use crate::paste::{
    chord_events, default_paste_events, lemma_first_keymap_index, lemma_no_keymap, middle_click,
    paste_key_events, push_chord, InputAction, KeyRef,
};
use crate::mime_filter::{filter_mimes, filtered_targets};
use crate::utils::{is_plaintext_mime, plaintext_rank};
use vstd::prelude::*;

verus! {

broadcast use vstd::laws_eq::group_laws_eq;

/// One captured selection: its content id and its payloads.
#[derive(Debug)]
pub struct SelectionItem {
    pub id: u64,
    pub data: SelectionData,
}

/// The selection that a history follows.
#[derive(Debug, Clone, Copy, PartialEq, Eq, Structural)]
pub enum SelectionType {
    PRIMARY,
    CLIPBOARD,
}

impl SelectionType {
    /// The selection's name, as the X server knows it.
    pub fn name(&self) -> (r: &'static str)
        ensures
            *self == SelectionType::PRIMARY ==> r@ == "PRIMARY"@,
            *self == SelectionType::CLIPBOARD ==> r@ == "CLIPBOARD"@,
    {
        match self {
            SelectionType::PRIMARY => "PRIMARY",
            SelectionType::CLIPBOARD => "CLIPBOARD",
        }
    }
}

/// What is remembered of the last completed capture.
#[derive(Debug, Clone, Copy, PartialEq, Eq, Structural)]
pub struct PrevCapture {
    pub owner: u32,
    pub time_ms: u64,
    /// The capture only brought an existing item back to the front.
    pub resurfaced: bool,
}

/// How close in time two captures of one owner must be to merge.
pub const MERGE_WINDOW_MS: u64 = 1000;

/// Milliseconds from `then` to `now`; zero when the clock reads earlier.
pub open spec fn elapsed_ms(then: u64, now: u64) -> int {
    if now >= then {
        now - then
    } else {
        0
    }
}

/// `needle` occurs in `hay` as a contiguous run.
pub open spec fn is_substring(hay: Seq<u8>, needle: Seq<u8>) -> bool {
    exists|i: int|
        0 <= i && i + needle.len() <= hay.len() && #[trigger] hay.subrange(i, i + needle.len()) == needle
}

/// A history as a sequence of (id, item) entries, most recent first.
pub type HistoryView = Seq<(u64, SelectionItem)>;

/// The new capture continues the front item as one drag of the mouse: merging
/// is on, the last capture came from the same owner less than a second ago and
/// added an item, both hold one and the same plain-text name, and either text
/// holds the other.
pub open spec fn merges_with_front(
    h: HistoryView,
    data: Seq<(Seq<char>, Seq<u8>)>,
    prev: Option<PrevCapture>,
    enabled: bool,
    owner: u32,
    now: u64,
) -> bool {
    &&& enabled
    &&& prev is Some
    &&& prev->Some_0.owner == owner
    &&& elapsed_ms(prev->Some_0.time_ms, now) < MERGE_WINDOW_MS
    &&& !prev->Some_0.resurfaced
    &&& data.len() == 1
    &&& plaintext_rank(name_key(data[0].0)) is Some
    &&& h.len() > 0
    &&& h[0].1.data@.len() == 1
    &&& h[0].1.data@[0].0 == data[0].0
    &&& (is_substring(data[0].1, h[0].1.data@[0].1) || is_substring(h[0].1.data@[0].1, data[0].1))
}

/// The history once the capture of `item` (id `id`) is placed: an item of the
/// same id moves to the front, otherwise the new item goes in front.
pub open spec fn placed(h: HistoryView, id: u64, item: SelectionItem) -> HistoryView {
    if has_key(h, id) {
        seq![(id, value_of(h, id)->Some_0)] + removed_key(h, id)
    } else {
        seq![(id, item)] + h
    }
}

/// The first `limit` entries of `h`.
pub open spec fn kept(h: HistoryView, limit: nat) -> HistoryView {
    if h.len() > limit {
        h.subrange(0, limit as int)
    } else {
        h
    }
}

/// The entries of `h` past the first `limit`.
pub open spec fn evicted(h: HistoryView, limit: nat) -> HistoryView {
    if h.len() > limit {
        h.subrange(limit as int, h.len() as int)
    } else {
        Seq::empty()
    }
}

/// The items of history entries, in order.
pub open spec fn items_of(h: HistoryView) -> Seq<SelectionItem> {
    h.map_values(|e: (u64, SelectionItem)| e.1)
}

/// The history that a capture starts from: without its front item when the
/// capture merges with it.
pub open spec fn merge_base(
    h: HistoryView,
    data: SelectionData,
    prev: Option<PrevCapture>,
    enabled: bool,
    owner: u32,
    now: u64,
) -> HistoryView {
    if merges_with_front(h, data@, prev, enabled, owner, now) {
        h.drop_first()
    } else {
        h
    }
}

/// The history once a capture of `data` with id `id` is placed, before eviction.
pub open spec fn captured(
    h: HistoryView,
    data: SelectionData,
    id: u64,
    prev: Option<PrevCapture>,
    enabled: bool,
    owner: u32,
    now: u64,
) -> HistoryView {
    placed(merge_base(h, data, prev, enabled, owner, now), id, SelectionItem { id: id, data: data })
}

/// What a completed capture changed.
pub struct CaptureOutcome {
    /// The id of the item that was added in front, if one was.
    pub new_item: Option<u64>,
    /// The items that left the history: a merged predecessor, then evicted ones.
    pub removed: Vec<SelectionItem>,
}

/// The atoms that the protocol names, as the X server numbered them.
#[derive(Debug, Clone, Copy, PartialEq, Eq, Structural)]
pub struct ProtocolAtoms {
    pub primary: u32,
    pub clipboard: u32,
    pub incr: u32,
    pub timestamp: u32,
    pub targets: u32,
    pub save_targets: u32,
    pub multiple: u32,
    pub delete: u32,
    pub insert_property: u32,
    pub insert_selection: u32,
    pub net_wm_name: u32,
    /// The predefined `ATOM` type.
    pub atom: u32,
}

/// The atom that stands for no atom.
pub const NONE: u32 = 0;

/// Where an inbound transfer stands.
#[derive(Debug)]
pub enum RequestState {
    /// The owner was asked for its targets.
    TargetsRequest,
    /// Targets are asked for one at a time; `pending` are still to come.
    PendingSelection { pending: Vec<(u32, String)>, data: SelectionData },
    /// The target `current_atom` (`current_name`) comes in chunks, gathered in `buffer`.
    PendingIncr {
        pending: Vec<(u32, String)>,
        data: SelectionData,
        current_atom: u32,
        current_name: String,
        buffer: Vec<u8>,
    },
}

/// One inbound transfer, keyed by its transfer window.
#[derive(Debug)]
pub struct RequestTask {
    /// The property atom of the transfer window.
    pub atom: u32,
    /// The window that owned the selection.
    pub owner: u32,
    pub state: RequestState,
    /// When the transfer last moved, in milliseconds.
    pub last_update: u64,
}

/// One outbound chunked transfer, keyed by (peer window, property).
#[derive(Debug)]
pub struct IncrPasteTask {
    pub target: u32,
    pub item_id: u64,
    pub name: String,
    /// How many bytes were sent so far.
    pub offset: usize,
    pub last_update: u64,
}

/// The largest payload that an inbound chunked transfer may bring.
pub const MAX_INCR_SIZE: usize = 10485760;

/// Payloads longer than this are served in chunks of at most this size.
pub const INCR_CHUNK_SIZE: usize = 1048575;

/// A task untouched for this long is purged.
pub const OVERDUE_TIMEOUT_MS: u64 = 3000;

/// A task's data is well-formed.
pub open spec fn task_wf(t: RequestTask) -> bool {
    match t.state {
        RequestState::TargetsRequest => true,
        RequestState::PendingSelection { data, .. } => data.wf(),
        RequestState::PendingIncr { data, buffer, .. } => data.wf() && buffer@.len()
            <= MAX_INCR_SIZE,
    }
}

/// A request to the X server, made on the engine's behalf.
#[derive(Debug, PartialEq, Eq)]
pub enum XRequest {
    /// Asks the owner of `selection` to convert it to `target` into `property` of `requestor`.
    ConvertSelection { requestor: u32, selection: u32, target: u32, property: u32 },
    /// Replaces a property with 8-bit data.
    ChangeProperty8 { window: u32, property: u32, type_: u32, data: Vec<u8> },
    /// Replaces a property with 32-bit data.
    ChangeProperty32 { window: u32, property: u32, type_: u32, values: Vec<u32> },
    /// Deletes a property.
    DeleteProperty { window: u32, property: u32 },
    /// Starts or stops watching property changes on a window.
    WatchProperties { window: u32, watch: bool },
    /// Tells `requestor` that its conversion is done (`property` NONE: refused).
    SelectionNotify { requestor: u32, selection: u32, target: u32, property: u32, time: u32 },
}

/// The capture and serve engine: the history, the transfers in flight, and
/// what it needs to decide how a new capture enters the history.
pub struct Selection {
    history: OrderedHashMap<u64, SelectionItem>,
    item_limit: usize,
    merge_enabled: bool,
    prev_capture: Option<PrevCapture>,
    own_window: u32,
    selection_atom: u32,
    atoms: ProtocolAtoms,
    request_tasks: OrderedHashMap<u32, RequestTask>,
    incr_paste_tasks: OrderedHashMap<(u32, u32), IncrPasteTask>,
    transfer_windows: TransferWindowPool,
    mime_atoms: Vec<(String, u32)>,
    paste_item_id: Option<u64>,
    paste_keymaps: Vec<(String, Vec<Binding>)>,
    metadata: SelectionMetadata,
}

/// No free window is the window of a transfer in flight.
pub open spec fn pool_disjoint(pool: Seq<TransferWindow>, tasks: Seq<(u32, RequestTask)>) -> bool {
    forall|i: int| 0 <= i < pool.len() ==> !has_key(tasks, #[trigger] pool[i].id)
}

/// Every task of `tasks` is well-formed.
pub open spec fn tasks_wf(tasks: Seq<(u32, RequestTask)>) -> bool {
    forall|i: int| 0 <= i < tasks.len() ==> task_wf(#[trigger] tasks[i].1)
}

impl Selection {
    /// Well-formed: ids and task keys are unique, no free window is in use,
    /// and every transfer's data is well-formed.
    pub closed spec fn wf(&self) -> bool {
        &&& self.history.wf()
        &&& self.request_tasks.wf()
        &&& self.incr_paste_tasks.wf()
        &&& self.transfer_windows.wf()
        &&& pool_disjoint(self.transfer_windows@, self.request_tasks@)
        &&& tasks_wf(self.request_tasks@)
        &&& self.metadata.wf()
    }

    pub closed spec fn history_view(&self) -> HistoryView {
        self.history@
    }

    pub closed spec fn limit(&self) -> nat {
        self.item_limit as nat
    }

    pub closed spec fn merging(&self) -> bool {
        self.merge_enabled
    }

    pub closed spec fn last_capture(&self) -> Option<PrevCapture> {
        self.prev_capture
    }

    pub closed spec fn own(&self) -> u32 {
        self.own_window
    }

    pub closed spec fn selection_atom_view(&self) -> u32 {
        self.selection_atom
    }

    pub closed spec fn atoms_view(&self) -> ProtocolAtoms {
        self.atoms
    }

    pub closed spec fn tasks(&self) -> Seq<(u32, RequestTask)> {
        self.request_tasks@
    }

    pub closed spec fn incr_tasks(&self) -> Seq<((u32, u32), IncrPasteTask)> {
        self.incr_paste_tasks@
    }

    pub closed spec fn free_windows(&self) -> Seq<TransferWindow> {
        self.transfer_windows@
    }

    pub closed spec fn paste_item(&self) -> Option<u64> {
        self.paste_item_id
    }

    pub closed spec fn atom_cache(&self) -> Seq<(String, u32)> {
        self.mime_atoms@
    }

    pub closed spec fn keymaps(&self) -> Seq<(String, Vec<Binding>)> {
        self.paste_keymaps@
    }

    pub closed spec fn pinned(&self) -> Seq<u64> {
        self.metadata@
    }

    /// What is kept beside the history: the pinned ids.
    pub fn metadata(&self) -> (r: &SelectionMetadata)
        ensures
            r@ == self.pinned(),
    {
        &self.metadata
    }

    /// Pins the item `item_id`, or unpins it when it is pinned; returns
    /// whether it is pinned now. An id that is not in the history is an error.
    pub fn toggle_pin(&mut self, item_id: u64) -> (r: Result<bool, PinError>)
        requires
            old(self).wf(),
        ensures
            final(self).wf(),
            !has_key(old(self).history_view(), item_id) ==> r == Err::<bool, PinError>(PinError::NotFound)
                && final(self).pinned() == old(self).pinned(),
            has_key(old(self).history_view(), item_id) && old(self).pinned().contains(item_id) ==> r == Ok::<
                bool,
                PinError,
            >(false) && final(self).pinned() == old(self).pinned().remove(
                old(self).pinned().index_of(item_id),
            ),
            has_key(old(self).history_view(), item_id) && !old(self).pinned().contains(item_id) ==> r == Ok::<
                bool,
                PinError,
            >(true) && final(self).pinned() == old(self).pinned().push(item_id),
            final(self).history_view() == old(self).history_view(),
            final(self).tasks() == old(self).tasks(),
            final(self).free_windows() == old(self).free_windows(),
    {
        if !self.history.contains_key(&item_id) {
            return Err(PinError::NotFound);
        }
        Ok(self.metadata.toggle(item_id))
    }

    /// Designates the item that conversion requests are served from, as
    /// pasting does; used when the selection was taken by other means.
    pub fn set_paste_item(&mut self, item_id: Option<u64>)
        requires
            old(self).wf(),
        ensures
            final(self).wf(),
            final(self).paste_item() == item_id,
            final(self).history_view() == old(self).history_view(),
    {
        self.paste_item_id = item_id;
    }

    fn keymap_index(&self, name: &String) -> (r: Option<usize>)
        ensures
            r is None ==> forall|j: int| 0 <= j < self.paste_keymaps@.len() ==> self.paste_keymaps@[j].0@ != name@,
            r matches Some(i) ==> i < self.paste_keymaps@.len() && self.paste_keymaps@[i as int].0@ == name@
                && forall|j: int| 0 <= j < i ==> self.paste_keymaps@[j].0@ != name@,
    {
        let mut i: usize = 0;
        while i < self.paste_keymaps.len()
            invariant
                i <= self.paste_keymaps@.len(),
                forall|j: int| 0 <= j < i ==> self.paste_keymaps@[j].0@ != name@,
            decreases self.paste_keymaps@.len() - i,
        {
            if self.paste_keymaps[i].0 == *name {
                return Some(i);
            }
            i += 1;
        }
        None
    }

    /// Pastes the item `item_id` into the window `focused`: takes the
    /// selection, then, for CLIPBOARD, strikes the key chords configured for
    /// the window's class (`window_class`: instance and class names, instance
    /// first), Control+V by default; for PRIMARY, clicks the middle button
    /// where the history window was opened (`pointer_opened`) and moves the
    /// pointer back to `pointer_current`. Pasting into this engine's own
    /// window does nothing.
    pub fn paste(
        &mut self,
        item_id: u64,
        focused: u32,
        window_class: Option<(String, String)>,
        pointer_opened: (i16, i16),
        pointer_current: (i16, i16),
    ) -> (r: Vec<InputAction>)
        requires
            old(self).wf(),
        ensures
            final(self).wf(),
            focused == old(self).own() ==> r@.len() == 0 && final(self).paste_item() == old(self).paste_item(),
            focused != old(self).own() ==> final(self).paste_item() == Some(item_id) && r@ == seq![
                InputAction::TakeOwnership,
            ] + if old(self).selection_atom_view() == old(self).atoms_view().clipboard {
                paste_key_events(old(self).keymaps(), window_class)
            } else if old(self).selection_atom_view() == old(self).atoms_view().primary {
                middle_click(pointer_opened, pointer_current)
            } else {
                Seq::empty()
            },
            final(self).history_view() == old(self).history_view(),
            final(self).tasks() == old(self).tasks(),
            final(self).free_windows() == old(self).free_windows(),
            final(self).incr_tasks() == old(self).incr_tasks(),
            same_settings(*old(self), *final(self)),
    {
        if focused == self.own_window {
            return Vec::new();
        }
        let mut out: Vec<InputAction> = vec![InputAction::TakeOwnership];
        if self.selection_atom == self.atoms.clipboard {
            let found = match &window_class {
                Some((instance, class)) => match self.keymap_index(instance) {
                    Some(i) => {
                        proof {
                            lemma_first_keymap_index(self.paste_keymaps@, instance@, i as int);
                        }
                        Some(i)
                    },
                    None => {
                        proof {
                            lemma_no_keymap(self.paste_keymaps@, instance@);
                        }
                        match self.keymap_index(class) {
                            Some(i) => {
                                proof {
                                    lemma_first_keymap_index(self.paste_keymaps@, class@, i as int);
                                }
                                Some(i)
                            },
                            None => {
                                proof {
                                    lemma_no_keymap(self.paste_keymaps@, class@);
                                }
                                None
                            },
                        }
                    },
                },
                None => None,
            };
            match found {
                Some(i) => {
                    let bindings = &self.paste_keymaps[i].1;
                    let mut k: usize = 0;
                    let ghost start = out@;
                    while k < bindings.len()
                        invariant
                            k <= bindings@.len(),
                            out@ == start + chord_events(bindings@.subrange(0, k as int)),
                        decreases bindings@.len() - k,
                    {
                        proof {
                            assert(bindings@.subrange(0, k + 1).drop_last() =~= bindings@.subrange(0, k as int));
                        }
                        push_chord(&mut out, &bindings[k]);
                        proof {
                            assert(out@ =~= start + chord_events(bindings@.subrange(0, k + 1)));
                        }
                        k += 1;
                    }
                    proof {
                        assert(bindings@.subrange(0, bindings@.len() as int) =~= bindings@);
                    }
                },
                None => {
                    out.push(InputAction::Key { press: true, key: KeyRef::Modifier(Modifier::Control) });
                    out.push(InputAction::Key { press: true, key: KeyRef::Keysym(0x76) });
                    out.push(InputAction::Key { press: false, key: KeyRef::Keysym(0x76) });
                    out.push(InputAction::Key { press: false, key: KeyRef::Modifier(Modifier::Control) });
                    proof {
                        assert(out@ =~= seq![InputAction::TakeOwnership] + default_paste_events());
                    }
                },
            }
        } else if self.selection_atom == self.atoms.primary {
            out.push(InputAction::MovePointer { x: pointer_opened.0, y: pointer_opened.1 });
            out.push(InputAction::Button { press: true, button: 2 });
            out.push(InputAction::Button { press: false, button: 2 });
            out.push(InputAction::MovePointer { x: pointer_current.0, y: pointer_current.1 });
            proof {
                assert(out@ =~= seq![InputAction::TakeOwnership] + middle_click(pointer_opened, pointer_current));
            }
        } else {
            proof {
                assert(out@ =~= seq![InputAction::TakeOwnership] + Seq::<InputAction>::empty());
            }
        }
        self.paste_item_id = Some(item_id);
        out
    }

    /// An engine over `history` for the selection `selection_type`, owned as
    /// `own_window` when it pastes. It keeps at most `item_limit` items after
    /// each capture and, when `merge_consecutive_similar_items` is on, merges
    /// the captures of one mouse drag.
    pub fn new(
        history: OrderedHashMap<u64, SelectionItem>,
        metadata: SelectionMetadata,
        item_limit: usize,
        merge_consecutive_similar_items: bool,
        app_paste_keymaps: Vec<(String, Vec<Binding>)>,
        selection_type: SelectionType,
        own_window: u32,
        atoms: ProtocolAtoms,
    ) -> (r: Self)
        requires
            history.wf(),
            metadata.wf(),
        ensures
            r.wf(),
            r.history_view() == history@,
            r.pinned() == metadata@,
            r.keymaps() == app_paste_keymaps@,
            r.limit() == item_limit,
            r.merging() == merge_consecutive_similar_items,
            r.last_capture() is None,
            r.own() == own_window,
            r.atoms_view() == atoms,
            r.selection_atom_view() == match selection_type {
                SelectionType::PRIMARY => atoms.primary,
                SelectionType::CLIPBOARD => atoms.clipboard,
            },
            r.tasks().len() == 0,
            r.incr_tasks().len() == 0,
            r.free_windows().len() == 0,
            r.paste_item() is None,
            r.atom_cache().len() == 0,
    {
        let selection_atom = match selection_type {
            SelectionType::PRIMARY => atoms.primary,
            SelectionType::CLIPBOARD => atoms.clipboard,
        };
        Selection {
            history,
            item_limit,
            merge_enabled: merge_consecutive_similar_items,
            prev_capture: None,
            own_window,
            selection_atom,
            atoms,
            request_tasks: OrderedHashMap::new(),
            incr_paste_tasks: OrderedHashMap::new(),
            transfer_windows: TransferWindowPool::new(),
            mime_atoms: Vec::new(),
            paste_item_id: None,
            paste_keymaps: app_paste_keymaps,
            metadata,
        }
    }

    /// Whether no free transfer window is left; the X side then makes one
    /// and hands it over with `add_transfer_window`.
    pub fn needs_transfer_window(&self) -> (r: bool)
        ensures
            r == (self.free_windows().len() == 0),
    {
        self.transfer_windows.len() == 0
    }

    /// Adds a newly made window to the pool; one whose id is in use or in
    /// the pool already is left out.
    pub fn add_transfer_window(&mut self, window: TransferWindow)
        requires
            old(self).wf(),
        ensures
            final(self).wf(),
            final(self).free_windows() == if has_key(old(self).tasks(), window.id) || has_window(
                old(self).free_windows(),
                window.id,
            ) {
                old(self).free_windows()
            } else {
                old(self).free_windows().push(window)
            },
            final(self).tasks() == old(self).tasks(),
            final(self).history_view() == old(self).history_view(),
    {
        if self.request_tasks.contains_key(&window.id) {
            return ;
        }
        self.transfer_windows.release(window);
    }

    /// The title and property atom name for the next transfer window that
    /// the X side makes (see `TransferWindowPool::next_names`).
    pub fn next_window_names(&mut self) -> (r: (Vec<u8>, Vec<u8>))
        requires
            old(self).wf(),
        ensures
            final(self).wf(),
            final(self).free_windows() == old(self).free_windows(),
            final(self).tasks() == old(self).tasks(),
            final(self).history_view() == old(self).history_view(),
    {
        self.transfer_windows.next_names()
    }

    /// The atom of the selection this engine follows.
    pub fn selection_atom(&self) -> (r: u32)
        ensures
            r == self.selection_atom_view(),
    {
        self.selection_atom
    }

    /// The number of inbound transfers in flight.
    pub fn transfers_in_flight(&self) -> (r: usize)
        ensures
            r == self.tasks().len(),
    {
        self.request_tasks.len()
    }

    /// Takes the task of `window` out of the map; its window is not freed.
    fn take_task(&mut self, window: u32) -> (r: Option<RequestTask>)
        requires
            old(self).wf(),
        ensures
            final(self).wf(),
            r == value_of(old(self).tasks(), window),
            final(self).tasks() == removed_key(old(self).tasks(), window),
            r is Some ==> task_wf(r->Some_0) && !has_window(final(self).free_windows(), window),
            final(self).free_windows() == old(self).free_windows(),
            final(self).history_view() == old(self).history_view(),
            final(self).incr_tasks() == old(self).incr_tasks(),
            final(self).paste_item() == old(self).paste_item(),
            final(self).last_capture() == old(self).last_capture(),
            final(self).limit() == old(self).limit(),
            final(self).merging() == old(self).merging(),
            same_settings(*old(self), *final(self)),
            final(self).atom_cache() == old(self).atom_cache(),
    {
        let ghost old_tasks = self.request_tasks@;
        proof {
            lemma_removed_key(old_tasks, window);
            if has_key(old_tasks, window) {
                let i = crate::ordered_hash_map::key_index(old_tasks, window);
                assert(task_wf(old_tasks[i].1));
                assert(!has_window(self.transfer_windows@, window)) by {
                    if has_window(self.transfer_windows@, window) {
                        let j = choose|j: int|
                            0 <= j < self.transfer_windows@.len() && #[trigger] self.transfer_windows@[j].id
                                == window;
                        assert(!has_key(old_tasks, self.transfer_windows@[j].id));
                    }
                }
            }
        }
        let r = self.request_tasks.remove(&window);
        proof {
            let t = removed_key(old_tasks, window);
            assert forall|i: int| 0 <= i < self.transfer_windows@.len() implies !has_key(
                t,
                #[trigger] self.transfer_windows@[i].id,
            ) by {
                assert(!has_key(old_tasks, self.transfer_windows@[i].id));
            }
            assert forall|i: int| 0 <= i < t.len() implies task_wf(#[trigger] t[i].1) by {
                lemma_removed_entry(old_tasks, window, i);
            }
        }
        r
    }

    /// Puts `task` in the map under `window`, which no task and no free window has.
    fn put_task(&mut self, window: u32, task: RequestTask)
        requires
            old(self).wf(),
            !has_key(old(self).tasks(), window),
            !has_window(old(self).free_windows(), window),
            task_wf(task),
        ensures
            final(self).wf(),
            final(self).tasks() == old(self).tasks().push((window, task)),
            final(self).free_windows() == old(self).free_windows(),
            final(self).history_view() == old(self).history_view(),
            final(self).incr_tasks() == old(self).incr_tasks(),
            final(self).paste_item() == old(self).paste_item(),
            final(self).last_capture() == old(self).last_capture(),
            final(self).limit() == old(self).limit(),
            final(self).merging() == old(self).merging(),
            same_settings(*old(self), *final(self)),
            final(self).atom_cache() == old(self).atom_cache(),
    {
        let ghost old_tasks = self.request_tasks@;
        let ghost e = (window, task);
        proof {
            lemma_removed_key(old_tasks, window);
        }
        self.request_tasks.push_back(window, task);
        proof {
            assert forall|i: int| 0 <= i < self.transfer_windows@.len() implies !has_key(
                self.request_tasks@,
                #[trigger] self.transfer_windows@[i].id,
            ) by {
                let x = self.transfer_windows@[i];
                assert(!has_key(old_tasks, x.id));
                assert(x.id != window);
                lemma_push_has_key(old_tasks, e, x.id);
            }
            assert forall|i: int| 0 <= i < self.request_tasks@.len() implies task_wf(
                #[trigger] self.request_tasks@[i].1,
            ) by {
                if i < old_tasks.len() {
                    assert(self.request_tasks@[i] == old_tasks[i]);
                }
            }
        }
    }

    /// Frees a window that no task has.
    fn free_window(&mut self, window: TransferWindow)
        requires
            old(self).wf(),
            !has_key(old(self).tasks(), window.id),
            !has_window(old(self).free_windows(), window.id),
        ensures
            final(self).wf(),
            final(self).free_windows() == old(self).free_windows().push(window),
            final(self).tasks() == old(self).tasks(),
            final(self).history_view() == old(self).history_view(),
            final(self).incr_tasks() == old(self).incr_tasks(),
            final(self).paste_item() == old(self).paste_item(),
            final(self).last_capture() == old(self).last_capture(),
            final(self).limit() == old(self).limit(),
            final(self).merging() == old(self).merging(),
            same_settings(*old(self), *final(self)),
            final(self).atom_cache() == old(self).atom_cache(),
    {
        let ghost old_pool = self.transfer_windows@;
        self.transfer_windows.release(window);
        proof {
            assert forall|i: int| 0 <= i < self.transfer_windows@.len() implies !has_key(
                self.request_tasks@,
                #[trigger] self.transfer_windows@[i].id,
            ) by {
                if i < old_pool.len() {
                    assert(self.transfer_windows@[i] == old_pool[i]);
                }
            }
        }
    }

    /// Where the transfer of `window` stands: `None` when no transfer uses it,
    /// else 0 (targets asked), 1 (payloads asked) or 2 (a payload in chunks).
    pub fn transfer_stage(&self, window: u32) -> (r: Option<u8>)
        requires
            self.wf(),
        ensures
            r is None <==> !has_key(self.tasks(), window),
            r matches Some(n) ==> match value_of(self.tasks(), window)->Some_0.state {
                RequestState::TargetsRequest => n == 0,
                RequestState::PendingSelection { .. } => n == 1,
                RequestState::PendingIncr { .. } => n == 2,
            },
    {
        match self.request_tasks.get(&window) {
            None => None,
            Some(t) => match t.state {
                RequestState::TargetsRequest => Some(0),
                RequestState::PendingSelection { .. } => Some(1),
                RequestState::PendingIncr { .. } => Some(2),
            },
        }
    }

    /// The offered targets whose names are worth looking up: all but the
    /// special ones and those with side effects.
    pub fn targets_to_resolve(&self, offered: &Vec<u32>) -> (r: Vec<u32>)
        ensures
            r@ == plain_targets(offered@, self.atoms_view()),
    {
        let mut out: Vec<u32> = Vec::new();
        let mut i: usize = 0;
        while i < offered.len()
            invariant
                i <= offered@.len(),
                out@ == plain_targets(offered@.subrange(0, i as int), self.atoms),
            decreases offered@.len() - i,
        {
            let a = offered[i];
            proof {
                assert(offered@.subrange(0, i + 1).drop_last() =~= offered@.subrange(0, i as int));
            }
            let at = &self.atoms;
            if !(a == at.timestamp || a == at.targets || a == at.save_targets || a == at.multiple
                || a == at.delete || a == at.insert_selection || a == at.insert_property) {
                out.push(a);
            }
            i += 1;
        }
        proof {
            assert(offered@.subrange(0, offered@.len() as int) =~= offered@);
        }
        out
    }

    /// The targets worth looking up in a TARGETS reply of type `reply_type`
    /// whose value read as atoms is `atoms` (`None` when it is not a list of
    /// atoms): none for a reply sent in chunks or not a list of atoms, else
    /// those that `targets_to_resolve` keeps.
    pub fn offered_targets(&self, reply_type: u32, atoms: Option<Vec<u32>>) -> (r: Vec<u32>)
        ensures
            reply_type == self.atoms_view().incr || atoms is None ==> r@.len() == 0,
            reply_type != self.atoms_view().incr && atoms is Some ==> r@ == plain_targets(
                atoms->Some_0@,
                self.atoms_view(),
            ),
    {
        match atoms {
            Some(a) => {
                if reply_type == self.atoms.incr {
                    Vec::new()
                } else {
                    self.targets_to_resolve(&a)
                }
            },
            None => Vec::new(),
        }
    }

    /// Whether a new value of `property` on `window` is a chunk of the
    /// transfer of `window`: it waits for chunks on its own property atom.
    pub fn is_chunk(&self, window: u32, property: u32) -> (r: bool)
        requires
            self.wf(),
        ensures
            r == (waits_for_chunks(self.tasks(), window) && value_of(self.tasks(), window)->Some_0.atom
                == property),
    {
        match self.request_tasks.get(&window) {
            Some(t) => match t.state {
                RequestState::PendingIncr { .. } => t.atom == property,
                _ => false,
            },
            None => false,
        }
    }

    /// The targets of the transfer of `window`, named: the chosen ones (see
    /// `filter_mimes`) are asked for one at a time, the first now. When none
    /// is chosen the transfer ends and its window is freed. A window whose
    /// transfer is not waiting for targets is ignored.
    pub fn on_targets(&mut self, window: u32, selection: u32, named: Vec<(u32, String)>, now_ms: u64) -> (r:
        Option<XRequest>)
        requires
            old(self).wf(),
        ensures
            final(self).wf(),
            final(self).history_view() == old(self).history_view(),
            final(self).incr_tasks() == old(self).incr_tasks(),
            !waits_for_targets(old(self).tasks(), window) ==> r is None && final(self).tasks() == old(
                self,
            ).tasks() && final(self).free_windows() == old(self).free_windows(),
            waits_for_targets(old(self).tasks(), window) && filtered_targets(named@).len() == 0 ==> {
                &&& r is None
                &&& final(self).tasks() == removed_key(old(self).tasks(), window)
                &&& final(self).free_windows() == old(self).free_windows().push(
                    TransferWindow { id: window, atom: value_of(old(self).tasks(), window)->Some_0.atom },
                )
            },
            waits_for_targets(old(self).tasks(), window) && filtered_targets(named@).len() > 0 ==> {
                let t = value_of(old(self).tasks(), window)->Some_0;
                &&& r == Some(
                    XRequest::ConvertSelection {
                        requestor: window,
                        selection: selection,
                        target: filtered_targets(named@)[0].0,
                        property: t.atom,
                    },
                )
                &&& final(self).free_windows() == old(self).free_windows()
                &&& final(self).tasks().drop_last() == removed_key(old(self).tasks(), window)
                &&& final(self).tasks().last().0 == window
                &&& final(self).tasks().last().1.atom == t.atom
                &&& final(self).tasks().last().1.owner == t.owner
                &&& final(self).tasks().last().1.last_update == now_ms
                &&& final(self).tasks().last().1.state matches RequestState::PendingSelection {
                    pending,
                    data,
                } && pending@ == filtered_targets(named@) && data@.len() == 0
            },
    {
        if !matches!(self.transfer_stage(window), Some(0)) {
            return None;
        }
        let task = match self.take_task(window) {
            Some(t) => t,
            None => {
                return None;
            },
        };
        let chosen = filter_mimes(named);
        if chosen.len() == 0 {
            self.free_window(TransferWindow { id: window, atom: task.atom });
            return None;
        }
        let target = chosen[0].0;
        let data = SelectionData::new();
        let next = RequestTask {
            atom: task.atom,
            owner: task.owner,
            state: RequestState::PendingSelection { pending: chosen, data },
            last_update: now_ms,
        };
        let atom = task.atom;
        proof {
            lemma_removed_key(old(self).request_tasks@, window);
        }
        self.put_task(window, next);
        proof {
            assert(self.request_tasks@.drop_last() =~= removed_key(old(self).request_tasks@, window));
        }
        Some(XRequest::ConvertSelection { requestor: window, selection, target, property: atom })
    }


    /// Records that MIME name `name` is atom `atom`.
    fn remember_atom(&mut self, name: &String, atom: u32)
        requires
            old(self).wf(),
        ensures
            final(self).wf(),
            cached_atom(final(self).atom_cache(), name@) == Some(atom),
            final(self).tasks() == old(self).tasks(),
            final(self).free_windows() == old(self).free_windows(),
            final(self).history_view() == old(self).history_view(),
            final(self).incr_tasks() == old(self).incr_tasks(),
            final(self).paste_item() == old(self).paste_item(),
            final(self).last_capture() == old(self).last_capture(),
            final(self).limit() == old(self).limit(),
            final(self).merging() == old(self).merging(),
            same_settings(*old(self), *final(self)),
    {
        match self.atom_index(name) {
            Some(i) => {
                let ghost before = self.mime_atoms@;
                self.mime_atoms.set(i, (name.clone(), atom));
                proof {
                    assert forall|j: int| 0 <= j < i implies self.mime_atoms@[j].0@ != name@ by {
                        assert(self.mime_atoms@[j] == before[j]);
                    }
                    lemma_first_atom_index(self.mime_atoms@, name@, i as int);
                }
            },
            None => {
                let ghost before = self.mime_atoms@;
                self.mime_atoms.push((name.clone(), atom));
                proof {
                    let n = before.len() as int;
                    assert forall|j: int| 0 <= j < n implies self.mime_atoms@[j].0@ != name@ by {
                        assert(self.mime_atoms@[j] == before[j]);
                    }
                    lemma_first_atom_index(self.mime_atoms@, name@, n);
                }
            },
        }
    }

    /// The position of the first cache entry named `name`, if any.
    fn atom_index(&self, name: &String) -> (r: Option<usize>)
        ensures
            r is None ==> forall|j: int| 0 <= j < self.mime_atoms@.len() ==> self.mime_atoms@[j].0@ != name@,
            r matches Some(i) ==> i < self.mime_atoms@.len() && self.mime_atoms@[i as int].0@ == name@
                && forall|j: int| 0 <= j < i ==> self.mime_atoms@[j].0@ != name@,
    {
        let mut i: usize = 0;
        while i < self.mime_atoms.len()
            invariant
                i <= self.mime_atoms@.len(),
                forall|j: int| 0 <= j < i ==> self.mime_atoms@[j].0@ != name@,
            decreases self.mime_atoms@.len() - i,
        {
            if self.mime_atoms[i].0 == *name {
                return Some(i);
            }
            i += 1;
        }
        None
    }

    /// The atom recorded for MIME name `name`, if any.
    pub fn atom_for(&self, name: &String) -> (r: Option<u32>)
        ensures
            r == cached_atom(self.atom_cache(), name@),
    {
        let mut i: usize = 0;
        while i < self.mime_atoms.len()
            invariant
                i <= self.mime_atoms@.len(),
                forall|j: int| 0 <= j < i ==> self.mime_atoms@[j].0@ != name@,
            decreases self.mime_atoms@.len() - i,
        {
            if self.mime_atoms[i].0 == *name {
                proof {
                    lemma_first_atom_index(self.mime_atoms@, name@, i as int);
                }
                return Some(self.mime_atoms[i].1);
            }
            i += 1;
        }
        None
    }

    /// Records the atom that the X server gave MIME name `name`.
    pub fn learn_atom(&mut self, name: &String, atom: u32)
        requires
            old(self).wf(),
        ensures
            final(self).wf(),
            cached_atom(final(self).atom_cache(), name@) == Some(atom),
            final(self).tasks() == old(self).tasks(),
            final(self).history_view() == old(self).history_view(),
    {
        self.remember_atom(name, atom);
    }

    /// Records a received payload and goes on: asks for the next pending
    /// target, or ends the transfer, frees its window and places the capture.
    fn continue_transfer(
        &mut self,
        window: u32,
        atom: u32,
        owner: u32,
        pending: Vec<(u32, String)>,
        data: SelectionData,
        value: Vec<u8>,
        name: Option<String>,
        target: u32,
        now_ms: u64,
    ) -> (r: Transfer)
        requires
            old(self).wf(),
            !has_key(old(self).tasks(), window),
            !has_window(old(self).free_windows(), window),
            data.wf(),
        ensures
            final(self).wf(),
            final(self).incr_tasks() == old(self).incr_tasks(),
            final(self).limit() == old(self).limit(),
            final(self).merging() == old(self).merging(),
            continued(
                *old(self),
                *final(self),
                r,
                old(self).tasks(),
                window,
                atom,
                owner,
                pending@,
                recorded(data@, name_view(name), value@),
                now_ms,
            ),
    {
        let ghost d = recorded(data@, name_view(name), value@);
        let mut data = data;
        if let Some(n) = name {
            self.remember_atom(&n, target);
            data.insert(n, value);
        }
        assert(data@ == d);
        if pending.len() > 0 {
            let next_target = pending[0].0;
            let task = RequestTask {
                atom,
                owner,
                state: RequestState::PendingSelection { pending, data },
                last_update: now_ms,
            };
            self.put_task(window, task);
            proof {
                lemma_push_has_key(old(self).request_tasks@, (window, task), window);
                assert(self.tasks().drop_last() =~= old(self).tasks());
                assert(self.tasks().last() == (window, task));
                assert(pending_of(task) == pending@);
                assert(data_of(task) == d);
            }
            return Transfer::Next(
                XRequest::ConvertSelection {
                    requestor: window,
                    selection: self.selection_atom,
                    target: next_target,
                    property: atom,
                },
            );
        }
        self.free_window(TransferWindow { id: window, atom });
        proof {
            assert(self.transfer_windows@.last().id == window);
        }
        if data.is_empty() {
            return Transfer::Abandoned;
        }
        match crate::selection_data::content_id(&data) {
            Ok(id) => {
                let ghost before = *self;
                let ghost dv = data;
                let outcome = self.finish_capture(data, id, owner, now_ms);
                proof {
                    assert(self.transfer_windows@ == before.transfer_windows@);
                    assert(dv@ == d && dv.wf());
                }
                Transfer::Captured(outcome)
            },
            Err(_) => Transfer::Abandoned,
        }
    }

    /// A payload arrived for the transfer of `window`: `property` is the
    /// reply's type and value, `None` when the owner refused. A payload in
    /// chunks (type INCR) waits for them; otherwise it is recorded and the
    /// transfer goes on. A window whose transfer does not wait for a payload
    /// is ignored.
    pub fn on_selection_data(&mut self, window: u32, target: u32, property: Option<(u32, Vec<u8>)>, now_ms: u64) -> (r:
        Transfer)
        requires
            old(self).wf(),
        ensures
            final(self).wf(),
            final(self).incr_tasks() == old(self).incr_tasks(),
            !waits_for_payload(old(self).tasks(), window) ==> r is Ignored && final(self).tasks() == old(
                self,
            ).tasks() && final(self).free_windows() == old(self).free_windows()
                && final(self).history_view() == old(self).history_view(),
            waits_for_payload(old(self).tasks(), window) ==> payload_step(
                *old(self),
                *final(self),
                r,
                window,
                target,
                property,
                now_ms,
            ),
    {
        if !matches!(self.transfer_stage(window), Some(1)) {
            return Transfer::Ignored;
        }
        let task = match self.take_task(window) {
            Some(t) => t,
            None => {
                return Transfer::Ignored;
            },
        };
        let ghost t = task;
        let (pending, data) = match task.state {
            RequestState::PendingSelection { pending, data } => (pending, data),
            _ => {
                return Transfer::Ignored;
            },
        };
        let ghost pend = pending@;
        let ghost k = target_index(pend, target);
        let (name, pending) = match find_target(&pending, target) {
            Some(i) => {
                let mut rest = pending;
                let (_, n) = rest.remove(i);
                (Some(n), rest)
            },
            None => (None, pending),
        };
        proof {
            assert(pending_of(t) == pend);
            assert(data_of(t) == data@);
            match k {
                Some(i) => {
                    assert(pending@ == pend.remove(i));
                    assert(name_view(name) == Some(pend[i].1@));
                },
                None => {
                    assert(pending@ == pend);
                    assert(name is None);
                },
            }
        }
        let (type_, value) = match property {
            Some(p) => p,
            None => (NONE, Vec::new()),
        };
        if type_ == self.atoms.incr && name.is_some() {
            let current_name = match name {
                Some(n) => n,
                None => String::new(),
            };
            let next = RequestTask {
                atom: task.atom,
                owner: task.owner,
                state: RequestState::PendingIncr {
                    pending,
                    data,
                    current_atom: target,
                    current_name,
                    buffer: Vec::new(),
                },
                last_update: now_ms,
            };
            self.put_task(window, next);
            proof {
                lemma_push_has_key(old(self).request_tasks@, (window, next), window);
                lemma_removed_key(old(self).request_tasks@, window);
                lemma_value_of_last(self.request_tasks@, window);
                assert(self.tasks().drop_last() =~= removed_key(old(self).tasks(), window));
                assert(self.tasks().last() == (window, next));
                assert(incr_buffer(next) =~= Seq::<u8>::empty());
            }
            return Transfer::Waiting;
        }
        let ghost self1 = *self;
        let r = self.continue_transfer(window, task.atom, task.owner, pending, data, value, name, target, now_ms);
        proof {
            assert(self1.tasks() == removed_key(old(self).tasks(), window));
            assert(same_settings(*old(self), self1));
        }
        r
    }

    /// A chunk of the payload in chunks of the transfer of `window` arrived.
    /// An empty chunk ends the payload, which is recorded, and the transfer
    /// goes on; a chunk that would take the payload past `MAX_INCR_SIZE`
    /// ends the transfer. A window whose transfer takes no chunks is ignored.
    pub fn on_incr_chunk(&mut self, window: u32, chunk: Vec<u8>, now_ms: u64) -> (r: Transfer)
        requires
            old(self).wf(),
        ensures
            final(self).wf(),
            final(self).incr_tasks() == old(self).incr_tasks(),
            !waits_for_chunks(old(self).tasks(), window) ==> r is Ignored && final(self).tasks() == old(
                self,
            ).tasks() && final(self).free_windows() == old(self).free_windows()
                && final(self).history_view() == old(self).history_view(),
            waits_for_chunks(old(self).tasks(), window) ==> chunk_step(
                *old(self),
                *final(self),
                r,
                window,
                chunk@,
                now_ms,
            ),
    {
        if !matches!(self.transfer_stage(window), Some(2)) {
            return Transfer::Ignored;
        }
        let task = match self.take_task(window) {
            Some(t) => t,
            None => {
                return Transfer::Ignored;
            },
        };
        let ghost t = task;
        let (pending, data, current_atom, current_name, buffer) = match task.state {
            RequestState::PendingIncr { pending, data, current_atom, current_name, buffer } => (
                pending,
                data,
                current_atom,
                current_name,
                buffer,
            ),
            _ => {
                return Transfer::Ignored;
            },
        };
        proof {
            assert(pending_of(t) == pending@);
            assert(data_of(t) == data@);
            assert(incr_target(t) == (current_atom, current_name@));
            assert(incr_buffer(t) == buffer@);
        }
        if chunk.len() == 0 {
            let ghost self1 = *self;
            let r = self.continue_transfer(
                window,
                task.atom,
                task.owner,
                pending,
                data,
                buffer,
                Some(current_name),
                current_atom,
                now_ms,
            );
            proof {
                assert(self1.tasks() == removed_key(old(self).tasks(), window));
                assert(same_settings(*old(self), self1));
            }
            return r;
        }
        if chunk.len() > MAX_INCR_SIZE - buffer.len() {
            self.free_window(TransferWindow { id: window, atom: task.atom });
            proof {
                assert(self.transfer_windows@.last().id == window);
            }
            return Transfer::Abandoned;
        }
        let ghost chunk0 = chunk@;
        let mut buffer = buffer;
        let mut chunk = chunk;
        buffer.append(&mut chunk);
        let next = RequestTask {
            atom: task.atom,
            owner: task.owner,
            state: RequestState::PendingIncr { pending, data, current_atom, current_name, buffer },
            last_update: now_ms,
        };
        self.put_task(window, next);
        proof {
            lemma_push_has_key(old(self).request_tasks@, (window, next), window);
            lemma_removed_key(old(self).request_tasks@, window);
            lemma_value_of_last(self.request_tasks@, window);
            assert(self.tasks().drop_last() =~= removed_key(old(self).tasks(), window));
            assert(self.tasks().last() == (window, next));
            assert(incr_buffer(next) == incr_buffer(t) + chunk0);
        }
        Transfer::Waiting
    }


    /// The names of the item being pasted that have no recorded atom yet;
    /// the X side interns them and records them with `learn_atom` before it
    /// answers a conversion request.
    pub fn names_without_atoms(&self) -> (r: Vec<String>)
        requires
            self.wf(),
        ensures
            served_item(*self) is None ==> r@.len() == 0,
            served_item(*self) is Some ==> r@.map_values(|n: String| n@) == uncached_names(
                served_item(*self)->Some_0.data@,
                self.atom_cache(),
            ),
    {
        let mut out: Vec<String> = Vec::new();
        let id = match self.paste_item_id {
            Some(id) => id,
            None => {
                return out;
            },
        };
        let item = match self.history.get(&id) {
            Some(item) => item,
            None => {
                return out;
            },
        };
        let mut k: usize = 0;
        proof {
            assert(out@.map_values(|n: String| n@) =~= uncached_names(item.data@.subrange(0, 0), self.mime_atoms@));
        }
        while k < item.data.len()
            invariant
                k <= item.data@.len(),
                out@.map_values(|n: String| n@) == uncached_names(item.data@.subrange(0, k as int), self.mime_atoms@),
            decreases item.data@.len() - k,
        {
            let (name, _) = item.data.entry(k);
            proof {
                assert(item.data@.subrange(0, k + 1).drop_last() =~= item.data@.subrange(0, k as int));
            }
            if self.atom_for(name).is_none() {
                out.push(name.clone());
            }
            proof {
                assert(out@.map_values(|n: String| n@) =~= uncached_names(item.data@.subrange(0, k + 1), self.mime_atoms@));
            }
            k += 1;
        }
        proof {
            assert(item.data@.subrange(0, item.data@.len() as int) =~= item.data@);
        }
        out
    }

    /// The targets that `data` offers (TARGETS first) and the entry that a
    /// request for `target` is served from.
    #[verifier::rlimit(40)]
    fn scan_item(&self, data: &SelectionData, target: u32) -> (r: (Vec<u32>, Option<usize>))
        ensures
            r.0@ == seq![self.atoms.targets] + offered_atoms(data@, self.mime_atoms@),
            r.1 matches Some(j) ==> requested_entry(data@, self.mime_atoms@, target) == Some(j as int),
            r.1 is None ==> requested_entry(data@, self.mime_atoms@, target) is None,
    {
        let mut supported: Vec<u32> = vec![self.atoms.targets];
        let mut requested: Option<usize> = None;
        let mut k: usize = 0;
        proof {
            assert(data@.subrange(0, 0) =~= Seq::<(Seq<char>, Seq<u8>)>::empty());
        }
        while k < data.len()
            invariant
                k <= data@.len(),
                supported@ == seq![self.atoms.targets] + offered_atoms(data@.subrange(0, k as int), self.mime_atoms@),
                requested matches Some(j) ==> requested_entry(data@.subrange(0, k as int), self.mime_atoms@, target)
                    == Some(j as int),
                requested is None ==> requested_entry(data@.subrange(0, k as int), self.mime_atoms@, target) is None,
            decreases data@.len() - k,
        {
            let (name, _) = data.entry(k);
            proof {
                assert(data@.subrange(0, k + 1).drop_last() =~= data@.subrange(0, k as int));
                assert(data@.subrange(0, k + 1).last() == data@[k as int]);
            }
            match self.atom_for(name) {
                Some(a) => {
                    if a != NONE {
                        supported.push(a);
                    }
                    if a == target && a != NONE {
                        requested = Some(k);
                    }
                },
                None => {},
            }
            proof {
                assert(supported@ =~= seq![self.atoms.targets] + offered_atoms(data@.subrange(0, k + 1), self.mime_atoms@));
            }
            k += 1;
        }
        proof {
            assert(data@.subrange(0, data@.len() as int) =~= data@);
        }
        (supported, requested)
    }

    /// A peer asks for the selection converted to `target` into `property`
    /// of `requestor`. It is refused unless the selection is this engine's,
    /// an item is being pasted and still in the history, and the target is
    /// TARGETS or one of the item's names. TARGETS gets the list of targets;
    /// a payload longer than `INCR_CHUNK_SIZE` is announced for transfer in
    /// chunks; a shorter one is written at once. The reply always ends with
    /// a notification to the requestor.
    pub fn on_selection_request(
        &mut self,
        requestor: u32,
        selection: u32,
        target: u32,
        property: u32,
        time: u32,
        now_ms: u64,
    ) -> (r: Vec<XRequest>)
        requires
            old(self).wf(),
        ensures
            final(self).wf(),
            final(self).tasks() == old(self).tasks(),
            final(self).free_windows() == old(self).free_windows(),
            final(self).history_view() == old(self).history_view(),
            r@.len() > 0,
            ({
                let prop = if property == NONE { target } else { property };
                &&& r@.last() matches XRequest::SelectionNotify {
                    requestor: rq,
                    selection: sel,
                    target: tg,
                    property: p,
                    time: tm,
                } && rq == requestor && sel == selection && tg == target && tm == time && (p == NONE || p
                    == prop)
                &&& prop == NONE ==> r@ == seq![
                    XRequest::SelectionNotify {
                        requestor: requestor,
                        selection: selection,
                        target: target,
                        property: NONE,
                        time: time,
                    },
                ] && final(self).incr_tasks() == old(self).incr_tasks()
                &&& prop != NONE && (selection != old(self).selection_atom_view() || old(self).paste_item() is None
                    || !has_key(old(self).history_view(), old(self).paste_item()->Some_0)) ==> r@ == refusal(
                    requestor,
                    selection,
                    target,
                    prop,
                    time,
                ) && final(self).incr_tasks() == old(self).incr_tasks()
                &&& prop != NONE && selection == old(self).selection_atom_view() && old(self).paste_item() is Some
                    && has_key(old(self).history_view(), old(self).paste_item()->Some_0) && target
                    == old(self).atoms_view().targets ==> r@ == seq![
                    XRequest::ChangeProperty32 {
                        window: requestor,
                        property: prop,
                        type_: old(self).atoms_view().atom,
                        values: r@[0]->ChangeProperty32_values,
                    },
                    XRequest::SelectionNotify {
                        requestor: requestor,
                        selection: selection,
                        target: target,
                        property: prop,
                        time: time,
                    },
                ] && r@[0]->ChangeProperty32_values@ == seq![old(self).atoms_view().targets] + offered_atoms(
                    value_of(old(self).history_view(), old(self).paste_item()->Some_0)->Some_0.data@,
                    old(self).atom_cache(),
                ) && final(self).incr_tasks() == old(self).incr_tasks()
                &&& prop != NONE && selection == old(self).selection_atom_view() && served_item(*old(self)) is Some
                    && target != old(self).atoms_view().targets ==> {
                    let entries = served_item(*old(self))->Some_0.data@;
                    let k = requested_entry(entries, old(self).atom_cache(), target);
                    &&& k is None ==> r@ == refusal(requestor, selection, target, prop, time)
                        && final(self).incr_tasks() == old(self).incr_tasks()
                    &&& k is Some && entries[k->Some_0].1.len() <= INCR_CHUNK_SIZE ==> r@.len() == 2
                        && r@[0] is ChangeProperty8 && r@[0]->ChangeProperty8_window == requestor
                        && r@[0]->ChangeProperty8_property == prop && r@[0]->ChangeProperty8_type_ == target
                        && r@[0]->ChangeProperty8_data@ == entries[k->Some_0].1
                        && r@[1] == (XRequest::SelectionNotify {
                            requestor: requestor,
                            selection: selection,
                            target: target,
                            property: prop,
                            time: time,
                        })
                        && final(self).incr_tasks() == old(self).incr_tasks()
                    &&& k is Some && entries[k->Some_0].1.len() > INCR_CHUNK_SIZE ==> r@.len() == 3
                        && r@[0] == XRequest::WatchProperties { window: requestor, watch: true }
                        && r@[1] is ChangeProperty32 && r@[1]->ChangeProperty32_type_ == old(self).atoms_view().incr
                        && r@[1]->ChangeProperty32_window == requestor && r@[1]->ChangeProperty32_property == prop
                        && r@[1]->ChangeProperty32_values@ == seq![announced_length(entries[k->Some_0].1.len())]
                        && r@[2] == (XRequest::SelectionNotify {
                            requestor: requestor,
                            selection: selection,
                            target: target,
                            property: prop,
                            time: time,
                        })
                        && value_of(final(self).incr_tasks(), (requestor, prop)) is Some
                        && value_of(final(self).incr_tasks(), (requestor, prop))->Some_0.offset == 0
                        && value_of(final(self).incr_tasks(), (requestor, prop))->Some_0.target == target
                        && value_of(final(self).incr_tasks(), (requestor, prop))->Some_0.name@ == entries[k->Some_0].0
                        && value_of(final(self).incr_tasks(), (requestor, prop))->Some_0.item_id
                        == old(self).paste_item()->Some_0
                }
            }),
    {
        let prop = if property == NONE {
            target
        } else {
            property
        };
        if prop == NONE {
            return vec![
                XRequest::SelectionNotify { requestor, selection, target, property: NONE, time },
            ];
        }
        let refuse = vec![
            XRequest::DeleteProperty { window: requestor, property: prop },
            XRequest::SelectionNotify { requestor, selection, target, property: NONE, time },
        ];
        if selection != self.selection_atom {
            return refuse;
        }
        let id = match self.paste_item_id {
            Some(id) => id,
            None => {
                return refuse;
            },
        };
        let item = match self.history.get(&id) {
            Some(item) => item,
            None => {
                return refuse;
            },
        };
        proof {
            lemma_value_of_wf(self.history@, id);
        }
        let (supported, requested) = self.scan_item(&item.data, target);
        if target == self.atoms.targets {
            let ghost sv = supported@;
            let change = XRequest::ChangeProperty32 { window: requestor, property: prop, type_: self.atoms.atom, values: supported };
            let r = vec![
                change,
                XRequest::SelectionNotify { requestor, selection, target, property: prop, time },
            ];
            proof {
                assert(r@[0]->ChangeProperty32_values@ == sv);
            }
            return r;
        }
        let j = match requested {
            Some(j) => j,
            None => {
                return refuse;
            },
        };
        proof {
            lemma_requested_entry(item.data@, self.mime_atoms@, target);
        }
        let (name, bytes) = item.data.entry(j);
        if bytes.len() > INCR_CHUNK_SIZE {
            let announced: u32 = if bytes.len() > 4294967295 {
                4294967295
            } else {
                bytes.len() as u32
            };
            let task = IncrPasteTask { target, item_id: id, name: name.clone(), offset: 0, last_update: now_ms };
            self.incr_paste_tasks.push_back((requestor, prop), task);
            proof {
                lemma_value_of_last(self.incr_paste_tasks@, (requestor, prop));
            }
            return vec![
                XRequest::WatchProperties { window: requestor, watch: true },
                XRequest::ChangeProperty32 { window: requestor, property: prop, type_: self.atoms.incr, values: vec![announced] },
                XRequest::SelectionNotify { requestor, selection, target, property: prop, time },
            ];
        }
        let payload = copy_bytes(bytes, 0, bytes.len());
        vec![
            XRequest::ChangeProperty8 { window: requestor, property: prop, type_: target, data: payload },
            XRequest::SelectionNotify { requestor, selection, target, property: prop, time },
        ]
    }

    /// A peer took the last chunk of the transfer in chunks that writes
    /// `property` of `window`: the next chunk is written (see `chunks_from`),
    /// or, past the end, an empty one that ends the transfer. An item that
    /// left the history ends it with an empty chunk. Anything else is ignored.
    pub fn on_incr_ack(&mut self, window: u32, property: u32, now_ms: u64) -> (r: Vec<XRequest>)
        requires
            old(self).wf(),
        ensures
            final(self).wf(),
            final(self).tasks() == old(self).tasks(),
            final(self).free_windows() == old(self).free_windows(),
            final(self).history_view() == old(self).history_view(),
            !has_key(old(self).incr_tasks(), (window, property)) ==> r@.len() == 0 && final(self).incr_tasks()
                == old(self).incr_tasks(),
            has_key(old(self).incr_tasks(), (window, property)) ==> r@.len() > 0 && r@.last() is ChangeProperty8
                && r@.last()->ChangeProperty8_window == window && r@.last()->ChangeProperty8_property == property,
            has_key(old(self).incr_tasks(), (window, property)) && served_payload(*old(self), window, property) is Some ==> {
                let t = value_of(old(self).incr_tasks(), (window, property))->Some_0;
                let d = served_payload(*old(self), window, property)->Some_0;
                let off = if t.offset <= d.len() { t.offset as nat } else { d.len() };
                &&& r@.last()->ChangeProperty8_data@ == chunks_from(d, off)[0]
                &&& r@.last()->ChangeProperty8_type_ == t.target
                &&& off < d.len() ==> value_of(final(self).incr_tasks(), (window, property)) is Some
                    && value_of(final(self).incr_tasks(), (window, property))->Some_0.offset == chunk_end(off, d.len())
                    && chunks_from(d, off) == seq![chunks_from(d, off)[0]] + chunks_from(d, chunk_end(off, d.len()))
                &&& off < d.len() ==> r@.len() == 1
                &&& off >= d.len() ==> !has_key(final(self).incr_tasks(), (window, property)) && r@.len() == 2
                    && r@[0] == (XRequest::WatchProperties { window: window, watch: false })
            },
            has_key(old(self).incr_tasks(), (window, property)) && served_payload(*old(self), window, property) is None ==> {
                &&& !has_key(final(self).incr_tasks(), (window, property))
                &&& r@.last()->ChangeProperty8_data@.len() == 0
                &&& r@.len() == 2 && r@[0] == (XRequest::WatchProperties { window: window, watch: false })
            },
    {
        let key = (window, property);
        let (target, item_id, name, offset) = match self.incr_paste_tasks.get(&key) {
            Some(t) => (t.target, t.item_id, t.name.clone(), t.offset),
            None => {
                return Vec::new();
            },
        };
        let found = match self.history.get(&item_id) {
            Some(item) => {
                proof {
                    lemma_value_of_wf(self.history@, item_id);
                }
                match item.data.get(&name) {
                    Some(bytes) => {
                        let len = bytes.len();
                        let off = if offset <= len {
                            offset
                        } else {
                            len
                        };
                        let end = if len - off > INCR_CHUNK_SIZE {
                            off + INCR_CHUNK_SIZE
                        } else {
                            len
                        };
                        Some((copy_bytes(bytes, off, end), off, end, len))
                    },
                    None => None,
                }
            },
            None => None,
        };
        match found {
            Some((chunk, off, end, len)) => {
                if off == end {
                    self.incr_paste_tasks.remove(&key);
                    proof {
                        assert(chunk@ =~= Seq::<u8>::empty());
                    }
                    vec![
                        XRequest::WatchProperties { window, watch: false },
                        XRequest::ChangeProperty8 { window, property, type_: target, data: chunk },
                    ]
                } else {
                    let task = IncrPasteTask { target, item_id, name, offset: end, last_update: now_ms };
                    self.incr_paste_tasks.push_back(key, task);
                    proof {
                        lemma_value_of_last(self.incr_paste_tasks@, key);
                    }
                    vec![XRequest::ChangeProperty8 { window, property, type_: target, data: chunk }]
                }
            },
            None => {
                self.incr_paste_tasks.remove(&key);
                vec![
                    XRequest::WatchProperties { window, watch: false },
                    XRequest::ChangeProperty8 { window, property, type_: target, data: Vec::new() },
                ]
            },
        }
    }


    /// Ends every transfer that has not moved for `OVERDUE_TIMEOUT_MS`;
    /// the windows of inbound ones go back to the pool.
    pub fn purge_overdue_tasks(&mut self, now_ms: u64)
        requires
            old(self).wf(),
        ensures
            final(self).wf(),
            final(self).tasks() == fresh_tasks(old(self).tasks(), now_ms),
            final(self).free_windows() == old(self).free_windows() + stale_windows(old(self).tasks(), now_ms),
            final(self).incr_tasks() == fresh_incr_tasks(old(self).incr_tasks(), now_ms),
            final(self).history_view() == old(self).history_view(),
            final(self).last_capture() == old(self).last_capture(),
            final(self).paste_item() == old(self).paste_item(),
            same_settings(*old(self), *final(self)),
    {
        let ghost orig = self.request_tasks@;
        let ghost pool0 = self.transfer_windows@;
        let mut pending: OrderedHashMap<u32, RequestTask> = OrderedHashMap::new();
        std::mem::swap(&mut pending, &mut self.request_tasks);
        let mut kept: OrderedHashMap<u32, RequestTask> = OrderedHashMap::new();
        let n = pending.len();
        let mut i: usize = 0;
        while i < n
            invariant
                n == orig.len(),
                i <= n,
                keys_unique(orig),
                tasks_wf(orig),
                pending.wf(),
                pending@ == orig.subrange(i as int, n as int),
                kept.wf(),
                kept@ == fresh_tasks(orig.subrange(0, i as int), now_ms),
                self.transfer_windows.wf(),
                self.transfer_windows@ == pool0 + stale_windows(orig.subrange(0, i as int), now_ms),
                forall|j: int| 0 <= j < pool0.len() ==> !has_key(orig, #[trigger] pool0[j].id),
                forall|k: u32| has_key(kept@, k) ==> has_key(orig.subrange(0, i as int), k),
                forall|j: int|
                    0 <= j < self.transfer_windows@.len() ==> !has_key(
                        orig.subrange(i as int, n as int),
                        #[trigger] self.transfer_windows@[j].id,
                    ) && !has_key(kept@, self.transfer_windows@[j].id),
                self.history@ == old(self).history@,
                self.incr_paste_tasks@ == old(self).incr_paste_tasks@,
                self.prev_capture == old(self).prev_capture,
                self.paste_item_id == old(self).paste_item_id,
                self.own_window == old(self).own_window,
                self.selection_atom == old(self).selection_atom,
                self.atoms == old(self).atoms,
                self.item_limit == old(self).item_limit,
                self.merge_enabled == old(self).merge_enabled,
                self.mime_atoms@ == old(self).mime_atoms@,
                self.metadata@ == old(self).metadata@,
                self.paste_keymaps@ == old(self).paste_keymaps@,
            decreases n - i,
        {
            let ghost e = orig[i as int];
            proof {
                assert(orig.subrange(0, i + 1).drop_last() =~= orig.subrange(0, i as int));
                assert(orig.subrange(0, i + 1).last() == e);
                assert(orig.subrange(i as int, n as int)[0] == e);
                assert(orig.subrange(i as int, n as int).drop_first() =~= orig.subrange(i + 1, n as int));
                assert(has_key(orig.subrange(i as int, n as int), e.0));
                lemma_step_keys(orig, i as int);
                assert(orig.subrange(0, i + 1)[i as int].0 == e.0);
                assert(task_wf(e.1));
            }
            if let Some((k, t)) = pending.pop_front() {
                let last = t.last_update;
                let elapsed = if now_ms >= last {
                    now_ms - last
                } else {
                    0
                };
                if elapsed >= OVERDUE_TIMEOUT_MS {
                    let ghost before = self.transfer_windows@;
                    self.transfer_windows.release(TransferWindow { id: k, atom: t.atom });
                    proof {
                        assert(!has_window(before, k)) by {
                            if has_window(before, k) {
                                let j = choose|j: int| 0 <= j < before.len() && #[trigger] before[j].id == k;
                                assert(!has_key(orig.subrange(i as int, n as int), before[j].id));
                            }
                        }
                        assert(self.transfer_windows@ =~= pool0 + stale_windows(orig.subrange(0, i + 1), now_ms));
                        assert forall|j: int| 0 <= j < self.transfer_windows@.len() implies !has_key(
                            orig.subrange(i + 1, n as int),
                            #[trigger] self.transfer_windows@[j].id,
                        ) && !has_key(kept@, self.transfer_windows@[j].id) by {
                            if j < before.len() {
                                assert(self.transfer_windows@[j] == before[j]);
                            }
                        }
                    }
                } else {
                    let ghost before = kept@;
                    proof {
                        crate::ordered_hash_map::lemma_removed_key(kept@, k);
                    }
                    kept.push_back(k, t);
                    proof {
                        assert(kept@ =~= fresh_tasks(orig.subrange(0, i + 1), now_ms));
                        assert forall|k2: u32| has_key(kept@, k2) implies has_key(orig.subrange(0, i + 1), k2) by {
                            lemma_push_has_key(before, (k, t), k2);
                        }
                        assert forall|j: int| 0 <= j < self.transfer_windows@.len() implies !has_key(
                            orig.subrange(i + 1, n as int),
                            #[trigger] self.transfer_windows@[j].id,
                        ) && !has_key(kept@, self.transfer_windows@[j].id) by {
                            let w = self.transfer_windows@[j];
                            assert(!has_key(orig.subrange(i as int, n as int), w.id));
                            lemma_push_has_key(before, (k, t), w.id);
                        }
                    }
                }
            }
            i += 1;
        }
        proof {
            assert(orig.subrange(0, n as int) =~= orig);
            assert forall|j: int| 0 <= j < kept@.len() implies task_wf(#[trigger] kept@[j].1) by {
                lemma_fresh_tasks_from(orig, now_ms, j);
            }
        }
        self.request_tasks = kept;
        let ghost iorig = self.incr_paste_tasks@;
        assert(keys_unique(iorig));
        let mut ipending: OrderedHashMap<(u32, u32), IncrPasteTask> = OrderedHashMap::new();
        std::mem::swap(&mut ipending, &mut self.incr_paste_tasks);
        let mut ikept: OrderedHashMap<(u32, u32), IncrPasteTask> = OrderedHashMap::new();
        let m = ipending.len();
        let mut i: usize = 0;
        while i < m
            invariant
                m == iorig.len(),
                i <= m,
                keys_unique(iorig),
                ipending.wf(),
                ipending@ == iorig.subrange(i as int, m as int),
                ikept.wf(),
                ikept@ == fresh_incr_tasks(iorig.subrange(0, i as int), now_ms),
                forall|k: (u32, u32)| has_key(ikept@, k) ==> has_key(iorig.subrange(0, i as int), k),
                self.history@ == old(self).history@,
                self.request_tasks@ == fresh_tasks(old(self).request_tasks@, now_ms),
                self.transfer_windows@ == old(self).transfer_windows@ + stale_windows(old(self).request_tasks@, now_ms),
                self.prev_capture == old(self).prev_capture,
                self.paste_item_id == old(self).paste_item_id,
                self.own_window == old(self).own_window,
                self.selection_atom == old(self).selection_atom,
                self.atoms == old(self).atoms,
                self.item_limit == old(self).item_limit,
                self.merge_enabled == old(self).merge_enabled,
                self.mime_atoms@ == old(self).mime_atoms@,
                self.metadata@ == old(self).metadata@,
                self.paste_keymaps@ == old(self).paste_keymaps@,
            decreases m - i,
        {
            proof {
                lemma_step_keys(iorig, i as int);
                assert(iorig.subrange(0, i + 1).last() == iorig[i as int]);
                assert(iorig.subrange(i as int, m as int)[0] == iorig[i as int]);
                assert(iorig.subrange(0, i + 1).drop_last() =~= iorig.subrange(0, i as int));
                assert(iorig.subrange(i as int, m as int).drop_first() =~= iorig.subrange(i + 1, m as int));
            }
            if let Some((k, t)) = ipending.pop_front() {
                let last = t.last_update;
                let elapsed = if now_ms >= last {
                    now_ms - last
                } else {
                    0
                };
                if elapsed < OVERDUE_TIMEOUT_MS {
                    let ghost before = ikept@;
                    proof {
                        crate::ordered_hash_map::lemma_removed_key(ikept@, k);
                    }
                    ikept.push_back(k, t);
                    proof {
                        assert(ikept@ =~= fresh_incr_tasks(iorig.subrange(0, i + 1), now_ms));
                        assert forall|k2: (u32, u32)| has_key(ikept@, k2) implies has_key(iorig.subrange(0, i + 1), k2) by {
                            lemma_push_has_key(before, (k, t), k2);
                        }
                    }
                }
            }
            i += 1;
        }
        proof {
            assert(iorig.subrange(0, m as int) =~= iorig);
        }
        self.incr_paste_tasks = ikept;
    }


    /// The selection owner changed to `owner`: unless that is this engine's
    /// own window, a free transfer window is checked out and the owner asked
    /// for its targets. Nothing happens when no window is free.
    pub fn on_owner_change(&mut self, owner: u32, selection: u32, now_ms: u64) -> (r: Option<XRequest>)
        requires
            old(self).wf(),
        ensures
            final(self).wf(),
            final(self).history_view() == old(self).history_view(),
            final(self).incr_tasks() == old(self).incr_tasks(),
            owner == old(self).own() || old(self).free_windows().len() == 0 ==> r is None
                && final(self).tasks() == old(self).tasks() && final(self).free_windows() == old(
                self,
            ).free_windows(),
            owner != old(self).own() && old(self).free_windows().len() > 0 ==> {
                let w = old(self).free_windows()[0];
                &&& r == Some(
                    XRequest::ConvertSelection {
                        requestor: w.id,
                        selection: selection,
                        target: old(self).atoms_view().targets,
                        property: w.atom,
                    },
                )
                &&& final(self).free_windows() == old(self).free_windows().drop_first()
                &&& !has_key(old(self).tasks(), w.id)
                &&& final(self).tasks() == old(self).tasks().push(
                    (
                        w.id,
                        RequestTask {
                            atom: w.atom,
                            owner: owner,
                            state: RequestState::TargetsRequest,
                            last_update: now_ms,
                        },
                    ),
                )
            },
    {
        if owner == self.own_window {
            return None;
        }
        let w = match self.transfer_windows.get() {
            Some(w) => w,
            None => {
                return None;
            },
        };
        proof {
            assert(!has_key(self.request_tasks@, w.id)) by {
                assert(old(self).transfer_windows@[0] == w);
            }
            lemma_removed_key(self.request_tasks@, w.id);
        }
        let task = RequestTask { atom: w.atom, owner, state: RequestState::TargetsRequest, last_update: now_ms };
        self.request_tasks.push_back(w.id, task);
        proof {
            assert forall|i: int| 0 <= i < self.transfer_windows@.len() implies !has_key(
                self.request_tasks@,
                #[trigger] self.transfer_windows@[i].id,
            ) by {
                let x = self.transfer_windows@[i];
                assert(x == old(self).transfer_windows@[i + 1]);
                assert(!has_key(old(self).request_tasks@, x.id));
                assert(x.id != w.id);
                lemma_push_has_key(old(self).request_tasks@, (w.id, task), x.id);
            }
            assert forall|i: int| 0 <= i < self.request_tasks@.len() implies task_wf(
                #[trigger] self.request_tasks@[i].1,
            ) by {
                if i < old(self).request_tasks@.len() {
                    assert(self.request_tasks@[i] == old(self).request_tasks@[i]);
                }
            }
        }
        Some(XRequest::ConvertSelection { requestor: w.id, selection, target: self.atoms.targets, property: w.atom })
    }

    /// The captured items, most recent first.
    pub fn history(&self) -> (r: &OrderedHashMap<u64, SelectionItem>)
        ensures
            r@ == self.history_view(),
    {
        &self.history
    }

    /// Whether a capture of `data` from `owner` at `now_ms` merges with the front item.
    fn front_merges(&self, data: &SelectionData, owner: u32, now_ms: u64) -> (r: bool)
        ensures
            r == merges_with_front(self.history@, data@, self.prev_capture, self.merge_enabled, owner, now_ms),
    {
        if !self.merge_enabled {
            return false;
        }
        let p = match self.prev_capture {
            Some(p) => p,
            None => {
                return false;
            },
        };
        if p.owner != owner || p.resurfaced {
            return false;
        }
        let elapsed = if now_ms >= p.time_ms {
            now_ms - p.time_ms
        } else {
            0
        };
        if elapsed >= MERGE_WINDOW_MS {
            return false;
        }
        if data.len() != 1 {
            return false;
        }
        let (name, text) = data.entry(0);
        if !is_plaintext_mime(name.as_str()) {
            return false;
        }
        match self.history.front() {
            None => false,
            Some((_, front)) => {
                if front.data.len() != 1 {
                    return false;
                }
                let (prev_name, prev_text) = front.data.entry(0);
                if *prev_name != *name {
                    return false;
                }
                contains(text.as_slice(), prev_text.as_slice()) || contains(
                    prev_text.as_slice(),
                    text.as_slice(),
                )
            },
        }
    }

    /// Places a completed capture of `data`, whose content id is `id`, taken
    /// from `owner` at `now_ms`. A capture that continues the front item (see
    /// `merges_with_front`) replaces it; an item of the same id moves to the
    /// front; otherwise a new item goes in front. Items past the limit are
    /// evicted from the back.
    fn finish_capture(&mut self, data: SelectionData, id: u64, owner: u32, now_ms: u64) -> (r:
        CaptureOutcome)
        requires
            old(self).wf(),
        ensures
            final(self).wf(),
            final(self).history_view() == kept(
                captured(
                    old(self).history_view(),
                    data,
                    id,
                    old(self).last_capture(),
                    old(self).merging(),
                    owner,
                    now_ms,
                ),
                old(self).limit(),
            ),
            r.removed@ == (if merges_with_front(
                old(self).history_view(),
                data@,
                old(self).last_capture(),
                old(self).merging(),
                owner,
                now_ms,
            ) {
                seq![old(self).history_view()[0].1]
            } else {
                Seq::empty()
            }) + items_of(
                evicted(
                    captured(
                        old(self).history_view(),
                        data,
                        id,
                        old(self).last_capture(),
                        old(self).merging(),
                        owner,
                        now_ms,
                    ),
                    old(self).limit(),
                ),
            ),
            r.new_item == (if !has_key(
                merge_base(
                    old(self).history_view(),
                    data,
                    old(self).last_capture(),
                    old(self).merging(),
                    owner,
                    now_ms,
                ),
                id,
            ) && old(self).limit() > 0 {
                Some(id)
            } else {
                None
            }),
            final(self).last_capture() == Some(
                PrevCapture {
                    owner: owner,
                    time_ms: now_ms,
                    resurfaced: has_key(
                        merge_base(
                            old(self).history_view(),
                            data,
                            old(self).last_capture(),
                            old(self).merging(),
                            owner,
                            now_ms,
                        ),
                        id,
                    ),
                },
            ),
            final(self).limit() == old(self).limit(),
            final(self).merging() == old(self).merging(),
            final(self).history_view().len() <= final(self).limit(),
            same_settings(*old(self), *final(self)),
            final(self).tasks() == old(self).tasks(),
            final(self).free_windows() == old(self).free_windows(),
            final(self).incr_tasks() == old(self).incr_tasks(),
            final(self).paste_item() == old(self).paste_item(),
            final(self).atom_cache() == old(self).atom_cache(),
    {
        let ghost h0 = self.history@;
        let merging = self.front_merges(&data, owner, now_ms);
        let ghost new_item_view = SelectionItem { id: id, data: data };
        let ghost h1 = merge_base(h0, data, self.prev_capture, self.merge_enabled, owner, now_ms);
        let mut removed: Vec<SelectionItem> = Vec::new();
        if merging {
            if let Some((_, item)) = self.history.pop_front() {
                removed.push(item);
            }
            proof {
                assert(h0.subrange(1, h0.len() as int) =~= h0.drop_first());
            }
        }
        assert(self.history@ == h1);
        let resurfaced = self.history.contains_key(&id);
        let mut new_item: Option<u64> = None;
        if resurfaced {
            if let Some(item) = self.history.remove(&id) {
                self.history.push_front(id, item);
            }
        } else {
            self.history.push_front(id, SelectionItem { id, data });
            if self.item_limit > 0 {
                new_item = Some(id);
            }
        }
        let ghost h2 = self.history@;
        assert(h2 == placed(h1, id, new_item_view));
        if self.history.len() > self.item_limit {
            let tail = self.history.split_off(self.item_limit);
            let mut gone = into_items(tail);
            removed.append(&mut gone);
        }
        proof {
            if h2.len() <= self.item_limit {
                assert(removed@ =~= removed@ + items_of(Seq::<(u64, SelectionItem)>::empty()));
            }
        }
        self.prev_capture = Some(PrevCapture { owner, time_ms: now_ms, resurfaced });
        CaptureOutcome { new_item, removed }
    }

    /// A well-formed engine's history has unique ids.
    pub proof fn lemma_history_unique(&self)
        requires
            self.wf(),
        ensures
            keys_unique(self.history_view()),
    {
    }

    /// In a well-formed engine, no two transfers share a key, no window is
    /// free twice, and no free window is in use by a transfer.
    pub proof fn lemma_transfers_apart(&self)
        requires
            self.wf(),
        ensures
            keys_unique(self.tasks()),
            keys_unique(self.incr_tasks()),
            window_ids_unique(self.free_windows()),
            pool_disjoint(self.free_windows(), self.tasks()),
    {
    }
}

/// Two engines share their fixed settings.
pub open spec fn same_settings(a: Selection, b: Selection) -> bool {
    &&& a.own() == b.own()
    &&& a.selection_atom_view() == b.selection_atom_view()
    &&& a.atoms_view() == b.atoms_view()
    &&& a.limit() == b.limit()
    &&& a.merging() == b.merging()
}

/// The position of the first cache entry named `n`.
pub open spec fn first_atom_index(s: Seq<(String, u32)>, n: Seq<char>) -> int {
    choose|i: int|
        0 <= i < s.len() && #[trigger] s[i].0@ == n && forall|j: int| 0 <= j < i ==> s[j].0@ != n
}

/// The atom that the first cache entry named `n` records.
pub open spec fn cached_atom(s: Seq<(String, u32)>, n: Seq<char>) -> Option<u32> {
    if exists|i: int| 0 <= i < s.len() && #[trigger] s[i].0@ == n {
        Some(s[first_atom_index(s, n)].1)
    } else {
        None
    }
}

proof fn lemma_first_atom_index(s: Seq<(String, u32)>, n: Seq<char>, i: int)
    requires
        0 <= i < s.len(),
        s[i].0@ == n,
        forall|j: int| 0 <= j < i ==> s[j].0@ != n,
    ensures
        first_atom_index(s, n) == i,
        cached_atom(s, n) == Some(s[i].1),
{
    assert(exists|k: int| 0 <= k < s.len() && #[trigger] s[k].0@ == n && forall|j: int| 0 <= j < k ==> s[j].0@ != n);
    let c = first_atom_index(s, n);
    if c < i {
        assert(s[c].0@ != n);
    } else if c > i {
        assert(s[i].0@ != n);
    }
}

/// The transfer of `window` waits for a payload.
pub open spec fn waits_for_payload(tasks: Seq<(u32, RequestTask)>, window: u32) -> bool {
    value_of(tasks, window) is Some && value_of(tasks, window)->Some_0.state is PendingSelection
}

/// The transfer of `window` waits for chunks of a payload.
pub open spec fn waits_for_chunks(tasks: Seq<(u32, RequestTask)>, window: u32) -> bool {
    value_of(tasks, window) is Some && value_of(tasks, window)->Some_0.state is PendingIncr
}

/// The bytes gathered so far of a payload that comes in chunks.
pub open spec fn incr_buffer(t: RequestTask) -> Seq<u8> {
    match t.state {
        RequestState::PendingIncr { buffer, .. } => buffer@,
        _ => Seq::empty(),
    }
}

/// A chunk fits in the task's buffer without passing `MAX_INCR_SIZE`.
pub open spec fn chunk_fits(t: RequestTask, chunk: Seq<u8>) -> bool {
    match t.state {
        RequestState::PendingIncr { buffer, .. } => buffer@.len() + chunk.len() <= MAX_INCR_SIZE,
        _ => false,
    }
}

/// The payloads of a transfer once `value` is recorded under `name`; without
/// a name (a reply to a target that was not asked for) nothing is recorded.
pub open spec fn recorded(d: Seq<(Seq<char>, Seq<u8>)>, name: Option<Seq<char>>, value: Seq<u8>) -> Seq<
    (Seq<char>, Seq<u8>),
> {
    match name {
        Some(n) => with_entry(d, n, value),
        None => d,
    }
}

/// A name, if any, as characters.
pub open spec fn name_view(name: Option<String>) -> Option<Seq<char>> {
    match name {
        Some(n) => Some(n@),
        None => None,
    }
}

/// The pending targets of a transfer.
pub open spec fn pending_of(t: RequestTask) -> Seq<(u32, String)> {
    match t.state {
        RequestState::PendingSelection { pending, .. } => pending@,
        RequestState::PendingIncr { pending, .. } => pending@,
        RequestState::TargetsRequest => Seq::empty(),
    }
}

/// The payloads a transfer has gathered.
pub open spec fn data_of(t: RequestTask) -> Seq<(Seq<char>, Seq<u8>)> {
    match t.state {
        RequestState::PendingSelection { data, .. } => data@,
        RequestState::PendingIncr { data, .. } => data@,
        RequestState::TargetsRequest => Seq::empty(),
    }
}

/// The target whose payload comes in chunks.
pub open spec fn incr_target(t: RequestTask) -> (u32, Seq<char>) {
    match t.state {
        RequestState::PendingIncr { current_atom, current_name, .. } => (current_atom, current_name@),
        _ => (NONE, Seq::empty()),
    }
}

/// The position of the first pending target of atom `target`, if any.
pub open spec fn target_index(p: Seq<(u32, String)>, target: u32) -> Option<int> {
    if exists|i: int| 0 <= i < p.len() && #[trigger] p[i].0 == target {
        Some(choose|i: int| 0 <= i < p.len() && #[trigger] p[i].0 == target && forall|j: int| 0 <= j < i ==> p[j].0 != target)
    } else {
        None
    }
}

proof fn lemma_target_index(p: Seq<(u32, String)>, target: u32, i: int)
    requires
        0 <= i < p.len(),
        p[i].0 == target,
        forall|j: int| 0 <= j < i ==> p[j].0 != target,
    ensures
        target_index(p, target) == Some(i),
{
    assert(exists|k: int| 0 <= k < p.len() && #[trigger] p[k].0 == target && forall|j: int| 0 <= j < k ==> p[j].0 != target);
    let c = choose|k: int| 0 <= k < p.len() && #[trigger] p[k].0 == target && forall|j: int| 0 <= j < k ==> p[j].0 != target;
    if c < i {
        assert(p[c].0 != target);
    } else if c > i {
        assert(p[i].0 != target);
    }
}

/// The last task of `after` is the transfer of `window` at `now`, on the
/// tasks `tasks0`; everything else but the atom cache is as in `before`.
pub open spec fn task_put_back(
    before: Selection,
    after: Selection,
    tasks0: Seq<(u32, RequestTask)>,
    window: u32,
    atom: u32,
    owner: u32,
    now: u64,
) -> bool {
    &&& after.tasks().len() == tasks0.len() + 1
    &&& after.tasks().drop_last() == tasks0
    &&& after.tasks().last().0 == window
    &&& after.tasks().last().1.atom == atom
    &&& after.tasks().last().1.owner == owner
    &&& after.tasks().last().1.last_update == now
    &&& after.free_windows() == before.free_windows()
    &&& after.history_view() == before.history_view()
    &&& after.last_capture() == before.last_capture()
}

/// How a transfer goes on once a payload is recorded, with data `d` and
/// targets `pending` still to come (`tasks0`: the other transfers). With
/// targets left, the next one is asked for and the transfer waits for it.
/// Otherwise it ends and its window is freed: empty data is dropped, any
/// other data is captured under its content id (see `finish_capture`).
pub open spec fn continued(
    before: Selection,
    after: Selection,
    r: Transfer,
    tasks0: Seq<(u32, RequestTask)>,
    window: u32,
    atom: u32,
    owner: u32,
    pending: Seq<(u32, String)>,
    d: Seq<(Seq<char>, Seq<u8>)>,
    now: u64,
) -> bool {
    &&& after.incr_tasks() == before.incr_tasks()
    &&& same_settings(before, after)
    &&& pending.len() > 0 ==> {
        &&& r == Transfer::Next(
            XRequest::ConvertSelection {
                requestor: window,
                selection: before.selection_atom_view(),
                target: pending[0].0,
                property: atom,
            },
        )
        &&& task_put_back(before, after, tasks0, window, atom, owner, now)
        &&& after.tasks().last().1.state is PendingSelection
        &&& pending_of(after.tasks().last().1) == pending
        &&& data_of(after.tasks().last().1) == d
    }
    &&& pending.len() == 0 ==> {
        &&& after.tasks() == tasks0
        &&& after.free_windows() == before.free_windows().push(TransferWindow { id: window, atom: atom })
        &&& d.len() == 0 ==> r is Abandoned && after.history_view() == before.history_view()
            && after.last_capture() == before.last_capture()
        &&& d.len() > 0 ==> r is Captured && exists|dd: SelectionData|
            #[trigger] dd@ == d && dd.wf() && after.history_view() == kept(
                captured(
                    before.history_view(),
                    dd,
                    content_id_of(d),
                    before.last_capture(),
                    before.merging(),
                    owner,
                    now,
                ),
                before.limit(),
            ) && after.last_capture() == Some(
                PrevCapture {
                    owner: owner,
                    time_ms: now,
                    resurfaced: has_key(
                        merge_base(before.history_view(), dd, before.last_capture(), before.merging(), owner, now),
                        content_id_of(d),
                    ),
                },
            ) && capture_reported(before, r->Captured_0, dd, owner, now)
    }
}

/// What a capture of `d` reports: the id of the item added in front, if one
/// was (none when an item of that id only moved to the front, or nothing is
/// kept); and the items that left, the merged front item first, then the
/// evicted ones in order.
pub open spec fn capture_reported(before: Selection, o: CaptureOutcome, d: SelectionData, owner: u32, now: u64) -> bool {
    let h = before.history_view();
    let id = content_id_of(d@);
    let after = captured(h, d, id, before.last_capture(), before.merging(), owner, now);
    &&& o.new_item == (if !has_key(merge_base(h, d, before.last_capture(), before.merging(), owner, now), id)
        && before.limit() > 0 {
        Some(id)
    } else {
        None
    })
    &&& o.removed@ == (if merges_with_front(h, d@, before.last_capture(), before.merging(), owner, now) {
        seq![h[0].1]
    } else {
        Seq::empty()
    }) + items_of(evicted(after, before.limit()))
}

/// A payload reply for the transfer of `window`, which waits for one: a reply
/// of type INCR to a pending target waits for chunks; any other reply is
/// recorded (a refusal as an empty payload) and the transfer goes on.
pub open spec fn payload_step(
    before: Selection,
    after: Selection,
    r: Transfer,
    window: u32,
    target: u32,
    property: Option<(u32, Vec<u8>)>,
    now: u64,
) -> bool {
    let t = value_of(before.tasks(), window)->Some_0;
    let pend = pending_of(t);
    let k = target_index(pend, target);
    let ty = match property {
        Some(p) => p.0,
        None => NONE,
    };
    let v = match property {
        Some(p) => p.1@,
        None => Seq::<u8>::empty(),
    };
    let rest = match k {
        Some(i) => pend.remove(i),
        None => pend,
    };
    let name = match k {
        Some(i) => Some(pend[i].1@),
        None => None,
    };
    let tasks0 = removed_key(before.tasks(), window);
    if ty == before.atoms_view().incr && k is Some {
        &&& r is Waiting
        &&& after.incr_tasks() == before.incr_tasks()
        &&& task_put_back(before, after, tasks0, window, t.atom, t.owner, now)
        &&& after.tasks().last().1.state is PendingIncr
        &&& pending_of(after.tasks().last().1) == rest
        &&& data_of(after.tasks().last().1) == data_of(t)
        &&& incr_target(after.tasks().last().1) == (target, pend[k->Some_0].1@)
        &&& incr_buffer(after.tasks().last().1).len() == 0
    } else {
        continued(before, after, r, tasks0, window, t.atom, t.owner, rest, recorded(data_of(t), name, v), now)
    }
}

/// A chunk for the transfer of `window`, which waits for chunks: an empty one
/// ends the payload, which is recorded under its target's name, and the
/// transfer goes on; one that fits is added to the gathered bytes; one that
/// would pass `MAX_INCR_SIZE` ends the transfer and frees its window.
pub open spec fn chunk_step(
    before: Selection,
    after: Selection,
    r: Transfer,
    window: u32,
    chunk: Seq<u8>,
    now: u64,
) -> bool {
    let t = value_of(before.tasks(), window)->Some_0;
    let tasks0 = removed_key(before.tasks(), window);
    if chunk.len() == 0 {
        continued(
            before,
            after,
            r,
            tasks0,
            window,
            t.atom,
            t.owner,
            pending_of(t),
            recorded(data_of(t), Some(incr_target(t).1), incr_buffer(t)),
            now,
        )
    } else if chunk_fits(t, chunk) {
        &&& r is Waiting
        &&& after.incr_tasks() == before.incr_tasks()
        &&& task_put_back(before, after, tasks0, window, t.atom, t.owner, now)
        &&& after.tasks().last().1.state is PendingIncr
        &&& pending_of(after.tasks().last().1) == pending_of(t)
        &&& data_of(after.tasks().last().1) == data_of(t)
        &&& incr_target(after.tasks().last().1) == incr_target(t)
        &&& incr_buffer(after.tasks().last().1) == incr_buffer(t) + chunk
    } else {
        &&& r is Abandoned
        &&& after.incr_tasks() == before.incr_tasks()
        &&& after.tasks() == tasks0
        &&& after.free_windows() == before.free_windows().push(TransferWindow { id: window, atom: t.atom })
        &&& after.history_view() == before.history_view()
        &&& after.last_capture() == before.last_capture()
    }
}

/// The payload that the transfer in chunks to (`window`, `property`) serves,
/// if its item and name are still in the history.
pub open spec fn served_payload(e: Selection, window: u32, property: u32) -> Option<Seq<u8>> {
    let t = value_of(e.incr_tasks(), (window, property))->Some_0;
    if has_key(e.history_view(), t.item_id) {
        crate::selection_data::payload_of(value_of(e.history_view(), t.item_id)->Some_0.data@, t.name@)
    } else {
        None
    }
}

/// The value stored under a key is one of the entries' values.
proof fn lemma_value_of_wf(s: HistoryView, k: u64)
    requires
        has_key(s, k),
    ensures
        exists|i: int| 0 <= i < s.len() && s[i].1 == value_of(s, k)->Some_0,
{
    let i = crate::ordered_hash_map::key_index(s, k);
    assert(s[i].1 == value_of(s, k)->Some_0);
}

/// A copy of `bytes[from..to]`.
pub(crate) fn copy_bytes(bytes: &Vec<u8>, from: usize, to: usize) -> (r: Vec<u8>)
    requires
        from <= to <= bytes@.len(),
    ensures
        r@ == bytes@.subrange(from as int, to as int),
{
    let mut out: Vec<u8> = Vec::new();
    let mut i = from;
    while i < to
        invariant
            from <= i <= to,
            to <= bytes@.len(),
            out@ == bytes@.subrange(from as int, i as int),
        decreases to - i,
    {
        out.push(bytes[i]);
        proof {
            assert(out@ =~= bytes@.subrange(from as int, i + 1));
        }
        i += 1;
    }
    out
}

/// The position of the first pending target of atom `target`, if any.
fn find_target(pending: &Vec<(u32, String)>, target: u32) -> (r: Option<usize>)
    ensures
        r matches Some(i) ==> i < pending@.len() && target_index(pending@, target) == Some(i as int),
        r is None ==> target_index(pending@, target) is None,
{
    let mut i: usize = 0;
    while i < pending.len()
        invariant
            i <= pending@.len(),
            forall|j: int| 0 <= j < i ==> pending@[j].0 != target,
        decreases pending@.len() - i,
    {
        if pending[i].0 == target {
            proof {
                lemma_target_index(pending@, target, i as int);
            }
            return Some(i);
        }
        i += 1;
    }
    None
}

/// What a step of an inbound transfer came to.
pub enum Transfer {
    /// No transfer was waiting for this.
    Ignored,
    /// More chunks are to come.
    Waiting,
    /// The next target was asked for.
    Next(XRequest),
    /// The transfer ended without a capture.
    Abandoned,
    /// The transfer ended with a capture.
    Captured(CaptureOutcome),
}

/// Where the chunk that starts at `offset` ends, in a payload of `len` bytes.
pub open spec fn chunk_end(offset: nat, len: nat) -> nat {
    if offset + INCR_CHUNK_SIZE < len {
        (offset + INCR_CHUNK_SIZE) as nat
    } else {
        len
    }
}

/// The chunks in which a payload is served from `offset` on: pieces of at
/// most `INCR_CHUNK_SIZE` bytes, then an empty one that ends the transfer.
pub open spec fn chunks_from(data: Seq<u8>, offset: nat) -> Seq<Seq<u8>>
    decreases data.len() - offset,
{
    if offset >= data.len() {
        seq![Seq::<u8>::empty()]
    } else {
        seq![data.subrange(offset as int, chunk_end(offset, data.len()) as int)] + chunks_from(
            data,
            chunk_end(offset, data.len()),
        )
    }
}

/// The bytes of all chunks, one after the other.
pub open spec fn joined(chunks: Seq<Seq<u8>>) -> Seq<u8>
    decreases chunks.len(),
{
    if chunks.len() == 0 {
        Seq::empty()
    } else {
        chunks[0] + joined(chunks.drop_first())
    }
}

/// Serving a payload in chunks and joining what was sent gives the payload
/// back: every chunk holds at most `INCR_CHUNK_SIZE` bytes, all but the last
/// are non-empty, and the last is empty.
pub proof fn lemma_incr_round_trip(data: Seq<u8>, offset: nat)
    requires
        offset <= data.len(),
    ensures
        joined(chunks_from(data, offset)) == data.subrange(offset as int, data.len() as int),
        forall|i: int|
            0 <= i < chunks_from(data, offset).len() ==> #[trigger] chunks_from(data, offset)[i].len()
                <= INCR_CHUNK_SIZE,
        forall|i: int|
            0 <= i < chunks_from(data, offset).len() - 1 ==> #[trigger] chunks_from(data, offset)[i].len()
                > 0,
        chunks_from(data, offset).last().len() == 0,
    decreases data.len() - offset,
{
    let c = chunks_from(data, offset);
    if offset >= data.len() {
        assert(c.drop_first() =~= Seq::<Seq<u8>>::empty());
        assert(joined(c.drop_first()) == Seq::<u8>::empty());
        assert(joined(c) =~= data.subrange(offset as int, data.len() as int));
    } else {
        let e = chunk_end(offset, data.len());
        lemma_incr_round_trip(data, e);
        let rest = chunks_from(data, e);
        assert(c.drop_first() =~= rest);
        assert(joined(c) =~= data.subrange(offset as int, e as int) + data.subrange(e as int, data.len() as int));
        assert(data.subrange(offset as int, e as int) + data.subrange(e as int, data.len() as int) =~= data.subrange(
            offset as int,
            data.len() as int,
        ));
        assert forall|i: int| 0 <= i < c.len() implies #[trigger] c[i].len() <= INCR_CHUNK_SIZE by {
            if i > 0 {
                assert(c[i] == rest[i - 1]);
            }
        }
        assert forall|i: int| 0 <= i < c.len() - 1 implies #[trigger] c[i].len() > 0 by {
            if i > 0 {
                assert(c[i] == rest[i - 1]);
            }
        }
        assert(c.last() == rest.last());
    }
}

/// The atoms that a served item offers for its names, in name order: the
/// recorded atom of each name that has one (other than NONE).
pub open spec fn offered_atoms(entries: Seq<(Seq<char>, Seq<u8>)>, cache: Seq<(String, u32)>) -> Seq<u32>
    decreases entries.len(),
{
    if entries.len() == 0 {
        Seq::empty()
    } else {
        let a = cached_atom(cache, entries.last().0);
        if a is Some && a->Some_0 != NONE {
            offered_atoms(entries.drop_last(), cache).push(a->Some_0)
        } else {
            offered_atoms(entries.drop_last(), cache)
        }
    }
}

/// The last entry whose name has the recorded atom `target` (not NONE).
pub open spec fn requested_entry(entries: Seq<(Seq<char>, Seq<u8>)>, cache: Seq<(String, u32)>, target: u32) -> Option<
    int,
>
    decreases entries.len(),
{
    if entries.len() == 0 {
        None
    } else if target != NONE && cached_atom(cache, entries.last().0) == Some(target) {
        Some(entries.len() - 1)
    } else {
        requested_entry(entries.drop_last(), cache, target)
    }
}

proof fn lemma_requested_entry(entries: Seq<(Seq<char>, Seq<u8>)>, cache: Seq<(String, u32)>, target: u32)
    ensures
        requested_entry(entries, cache, target) matches Some(j) ==> 0 <= j < entries.len() && cached_atom(
            cache,
            entries[j].0,
        ) == Some(target) && target != NONE,
    decreases entries.len(),
{
    if entries.len() > 0 {
        lemma_requested_entry(entries.drop_last(), cache, target);
    }
}

/// The names of `entries` that have no recorded atom, in order.
pub open spec fn uncached_names(entries: Seq<(Seq<char>, Seq<u8>)>, cache: Seq<(String, u32)>) -> Seq<Seq<char>>
    decreases entries.len(),
{
    if entries.len() == 0 {
        Seq::empty()
    } else if cached_atom(cache, entries.last().0) is None {
        uncached_names(entries.drop_last(), cache).push(entries.last().0)
    } else {
        uncached_names(entries.drop_last(), cache)
    }
}

/// The item that conversion requests are served from, if it is in the history.
pub open spec fn served_item(e: Selection) -> Option<SelectionItem> {
    if e.paste_item() is Some && has_key(e.history_view(), e.paste_item()->Some_0) {
        value_of(e.history_view(), e.paste_item()->Some_0)
    } else {
        None
    }
}

/// The length announced for a payload sent in chunks: its size, capped to 32 bits.
pub open spec fn announced_length(n: nat) -> u32 {
    if n > u32::MAX {
        u32::MAX
    } else {
        n as u32
    }
}

/// The refusal of a conversion request: the property is deleted and the
/// requestor told that nothing came.
pub open spec fn refusal(requestor: u32, selection: u32, target: u32, property: u32, time: u32) -> Seq<XRequest> {
    seq![
        XRequest::DeleteProperty { window: requestor, property: property },
        XRequest::SelectionNotify {
            requestor: requestor,
            selection: selection,
            target: target,
            property: NONE,
            time: time,
        },
    ]
}

/// Every entry that `fresh_tasks` keeps is an entry of the sequence.
pub proof fn lemma_fresh_tasks_from(s: Seq<(u32, RequestTask)>, now: u64, j: int)
    requires
        0 <= j < fresh_tasks(s, now).len(),
    ensures
        exists|i: int| 0 <= i < s.len() && s[i] == fresh_tasks(s, now)[j],
    decreases s.len(),
{
    let f = fresh_tasks(s, now);
    let p = fresh_tasks(s.drop_last(), now);
    if j < p.len() {
        lemma_fresh_tasks_from(s.drop_last(), now, j);
        let i = choose|i: int| 0 <= i < s.drop_last().len() && s.drop_last()[i] == p[j];
        assert(s[i] == f[j]);
    } else {
        assert(s[s.len() - 1] == f[j]);
    }
}

/// A task last moved at `last` is overdue at `now`.
pub open spec fn overdue(last: u64, now: u64) -> bool {
    elapsed_ms(last, now) >= OVERDUE_TIMEOUT_MS
}

/// The inbound transfers of `s` that are not overdue, in order.
pub open spec fn fresh_tasks(s: Seq<(u32, RequestTask)>, now: u64) -> Seq<(u32, RequestTask)>
    decreases s.len(),
{
    if s.len() == 0 {
        Seq::empty()
    } else if overdue(s.last().1.last_update, now) {
        fresh_tasks(s.drop_last(), now)
    } else {
        fresh_tasks(s.drop_last(), now).push(s.last())
    }
}

/// The windows of the inbound transfers of `s` that are overdue, in order.
pub open spec fn stale_windows(s: Seq<(u32, RequestTask)>, now: u64) -> Seq<TransferWindow>
    decreases s.len(),
{
    if s.len() == 0 {
        Seq::empty()
    } else if overdue(s.last().1.last_update, now) {
        stale_windows(s.drop_last(), now).push(TransferWindow { id: s.last().0, atom: s.last().1.atom })
    } else {
        stale_windows(s.drop_last(), now)
    }
}

/// The outbound transfers of `s` that are not overdue, in order.
pub open spec fn fresh_incr_tasks(s: Seq<((u32, u32), IncrPasteTask)>, now: u64) -> Seq<
    ((u32, u32), IncrPasteTask),
>
    decreases s.len(),
{
    if s.len() == 0 {
        Seq::empty()
    } else if overdue(s.last().1.last_update, now) {
        fresh_incr_tasks(s.drop_last(), now)
    } else {
        fresh_incr_tasks(s.drop_last(), now).push(s.last())
    }
}

/// The transfer of `window` waits for the owner's targets.
pub open spec fn waits_for_targets(tasks: Seq<(u32, RequestTask)>, window: u32) -> bool {
    value_of(tasks, window) is Some && value_of(tasks, window)->Some_0.state is TargetsRequest
}

/// A target that names no payload (the special ones and those with side effects).
pub open spec fn is_special_target(a: u32, atoms: ProtocolAtoms) -> bool {
    a == atoms.timestamp || a == atoms.targets || a == atoms.save_targets || a == atoms.multiple
        || a == atoms.delete || a == atoms.insert_selection || a == atoms.insert_property
}

/// The targets of `s` that are not special, in their order.
pub open spec fn plain_targets(s: Seq<u32>, atoms: ProtocolAtoms) -> Seq<u32>
    decreases s.len(),
{
    if s.len() == 0 {
        Seq::empty()
    } else if is_special_target(s.last(), atoms) {
        plain_targets(s.drop_last(), atoms)
    } else {
        plain_targets(s.drop_last(), atoms).push(s.last())
    }
}

/// Placing a capture keeps ids unique, puts its id in front, and adds at most one entry.
pub proof fn lemma_placed(h: HistoryView, id: u64, item: SelectionItem)
    requires
        keys_unique(h),
    ensures
        keys_unique(placed(h, id, item)),
        placed(h, id, item)[0].0 == id,
        placed(h, id, item).len() == if has_key(h, id) {
            h.len() as int
        } else {
            h.len() + 1int
        },
        forall|k: u64| k != id ==> (has_key(placed(h, id, item).drop_first(), k) <==> has_key(h, k)),
{
    lemma_removed_key(h, id);
    if has_key(h, id) {
        let v = value_of(h, id)->Some_0;
        lemma_prepend_unique(removed_key(h, id), (id, v));
        assert((seq![(id, v)] + removed_key(h, id)).drop_first() =~= removed_key(h, id));
    } else {
        lemma_prepend_unique(h, (id, item));
        assert((seq![(id, item)] + h).drop_first() =~= h);
    }
}

/// Capturing a selection whose content id is already in the history brings
/// that entry to the front instead of adding a second one: the id leads, ids
/// stay unique, and the history does not grow. Equal payloads have equal ids.
pub proof fn lemma_recapture_resurfaces(
    h: HistoryView,
    data: SelectionData,
    prev: Option<PrevCapture>,
    enabled: bool,
    owner: u32,
    now: u64,
    limit: nat,
)
    requires
        keys_unique(h),
        has_key(h, content_id_of(data@)),
    ensures
        ({
            let after = kept(
                captured(h, data, content_id_of(data@), prev, enabled, owner, now),
                limit,
            );
            &&& limit > 0 ==> after[0].0 == content_id_of(data@)
            &&& keys_unique(after)
            &&& after.len() <= h.len()
        }),
        forall|other: SelectionData| other@ == data@ ==> content_id_of(other@) == content_id_of(data@),
{
    let id = content_id_of(data@);
    let item = SelectionItem { id: id, data: data };
    let base = merge_base(h, data, prev, enabled, owner, now);
    if merges_with_front(h, data@, prev, enabled, owner, now) {
        lemma_subrange_unique(h, 1, h.len() as int);
        assert(h.subrange(1, h.len() as int) =~= h.drop_first());
        if !has_key(base, id) {
            assert(h[0].0 == id) by {
                let j = choose|j: int| 0 <= j < h.len() && #[trigger] h[j].0 == id;
                if j > 0 {
                    assert(base[j - 1] == h[j]);
                }
            }
        }
    }
    lemma_placed(base, id, item);
    let p = placed(base, id, item);
    if p.len() > limit {
        lemma_subrange_unique(p, 0, limit as int);
    }
}

/// Capturing the same payloads twice: both captures compute the same id, the
/// first leaves it in front, and the second brings that entry back to the
/// front without adding one.
pub proof fn lemma_capture_twice(
    h: HistoryView,
    data: SelectionData,
    prev: Option<PrevCapture>,
    enabled: bool,
    owner: u32,
    now: u64,
    prev2: Option<PrevCapture>,
    owner2: u32,
    now2: u64,
    limit: nat,
)
    requires
        keys_unique(h),
        limit > 0,
    ensures
        ({
            let id = content_id_of(data@);
            let once = kept(captured(h, data, id, prev, enabled, owner, now), limit);
            let twice = kept(captured(once, data, id, prev2, enabled, owner2, now2), limit);
            &&& once[0].0 == id
            &&& twice[0].0 == id
            &&& keys_unique(twice)
            &&& twice.len() <= once.len()
        }),
{
    let id = content_id_of(data@);
    let base = merge_base(h, data, prev, enabled, owner, now);
    if merges_with_front(h, data@, prev, enabled, owner, now) {
        lemma_subrange_unique(h, 1, h.len() as int);
        assert(h.subrange(1, h.len() as int) =~= h.drop_first());
    }
    lemma_placed(base, id, SelectionItem { id: id, data: data });
    let p = placed(base, id, SelectionItem { id: id, data: data });
    let once = kept(p, limit);
    if p.len() > limit {
        lemma_subrange_unique(p, 0, limit as int);
    }
    assert(once[0] == p[0]);
    assert(has_key(once, id)) by {
        assert(once[0].0 == id);
    }
    lemma_recapture_resurfaces(once, data, prev2, enabled, owner2, now2, limit);
}

/// Every completed capture leaves at most `limit` entries.
pub proof fn lemma_eviction_bound(h: HistoryView, limit: nat)
    ensures
        kept(h, limit).len() <= limit,
{
}

/// Two captures of one owner less than a second apart, each holding only the
/// same plain-text name, where the second text holds the first, collapse into
/// one entry when merging is on: the earlier item leaves, the new capture
/// leads, and the history does not grow.
pub proof fn lemma_drag_merges(
    h: HistoryView,
    data: SelectionData,
    id: u64,
    owner: u32,
    then: u64,
    now: u64,
    name: Seq<char>,
    first: Seq<u8>,
    second: Seq<u8>,
)
    requires
        keys_unique(h),
        h.len() > 0,
        h[0].1.data@ == seq![(name, first)],
        data@ == seq![(name, second)],
        plaintext_rank(name_key(name)) is Some,
        elapsed_ms(then, now) < MERGE_WINDOW_MS,
        is_substring(second, first),
    ensures
        ({
            let prev = Some(PrevCapture { owner: owner, time_ms: then, resurfaced: false });
            let after = captured(h, data, id, prev, true, owner, now);
            &&& merges_with_front(h, data@, prev, true, owner, now)
            &&& after[0].0 == id
            &&& after.len() <= h.len()
            &&& keys_unique(after)
            &&& (h[0].0 != id ==> !has_key(after.drop_first(), h[0].0))
        }),
{
    let prev = Some(PrevCapture { owner: owner, time_ms: then, resurfaced: false });
    assert(merges_with_front(h, data@, prev, true, owner, now));
    let base = h.drop_first();
    lemma_subrange_unique(h, 1, h.len() as int);
    assert(h.subrange(1, h.len() as int) =~= base);
    assert(!has_key(base, h[0].0)) by {
        if has_key(base, h[0].0) {
            let j = choose|j: int| 0 <= j < base.len() && #[trigger] base[j].0 == h[0].0;
            assert(base[j] == h[j + 1]);
        }
    }
    lemma_placed(base, id, SelectionItem { id: id, data: data });
}

/// Whether `needle` occurs in `hay`; an empty needle occurs everywhere.
pub fn contains(hay: &[u8], needle: &[u8]) -> (r: bool)
    ensures
        r == is_substring(hay@, needle@),
{
    let n = needle.len();
    let hl = hay.len();
    if n > hl {
        return false;
    }
    let mut i: usize = 0;
    while i <= hl - n
        invariant
            n == needle@.len(),
            hl == hay@.len(),
            n <= hay@.len(),
            i <= hay@.len() - n + 1,
            forall|k: int| 0 <= k < i ==> #[trigger] hay@.subrange(k, k + n) != needle@,
        decreases hay@.len() - i,
    {
        let mut j: usize = 0;
        let mut same = true;
        while j < n
            invariant
                n == needle@.len(),
                hl == hay@.len(),
                i + n <= hay@.len(),
                j <= n,
                same == forall|t: int| 0 <= t < j ==> hay@[i + t] == needle@[t],
            decreases n - j,
        {
            if hay[i + j] != needle[j] {
                same = false;
            }
            j += 1;
        }
        if same {
            proof {
                assert(hay@.subrange(i as int, i + n) =~= needle@);
            }
            return true;
        }
        proof {
            assert(hay@.subrange(i as int, i + n) != needle@) by {
                let t = choose|t: int| 0 <= t < n && hay@[i + t] != needle@[t];
                assert(hay@.subrange(i as int, i + n)[t] == hay@[i + t]);
            }
        }
        i += 1;
    }
    false
}

/// Moves the entries of a map that was split off into a vector of items.
fn into_items(m: OrderedHashMap<u64, SelectionItem>) -> (r: Vec<SelectionItem>)
    requires
        m.wf(),
    ensures
        r@ == items_of(m@),
{
    let ghost s = m@;
    let n = m.len();
    let mut it = m.into_iter();
    let mut out: Vec<SelectionItem> = Vec::new();
    let mut k: usize = 0;
    while k < n
        invariant
            it.wf(),
            n == s.len(),
            k <= n,
            it.remaining() == s.subrange(k as int, n as int),
            out@ == items_of(s.subrange(0, k as int)),
        decreases n - k,
    {
        proof {
            assert(items_of(s.subrange(0, k + 1)) =~= items_of(s.subrange(0, k as int)).push(s[k as int].1));
            assert(s.subrange(k as int, n as int).drop_first() =~= s.subrange(k + 1, n as int));
        }
        if let Some((_, item)) = it.next() {
            out.push(item);
        }
        k += 1;
    }
    proof {
        assert(s.subrange(0, n as int) =~= s);
    }
    out
}

} // verus!
