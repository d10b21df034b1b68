use memoni::ordered_hash_map::OrderedHashMap;
use memoni::metadata::{PinError, SelectionMetadata};
use memoni::paste::{split_wm_class, InputAction, KeyRef};
use memoni::selection::{
    ProtocolAtoms, Selection, SelectionType, Transfer, XRequest, INCR_CHUNK_SIZE, MAX_INCR_SIZE, NONE,
};
use memoni::config::{Binding, Modifier};
use memoni::selection_data::{content_id, SelectionData};
use memoni::transfer_window_pool::TransferWindow;

const OWN: u32 = 999;
const WIN: u32 = 500;
const PROP: u32 = 600;
const STRING_TYPE: u32 = 31;

fn atoms() -> ProtocolAtoms {
    ProtocolAtoms {
        primary: 1,
        clipboard: 2,
        incr: 3,
        timestamp: 4,
        targets: 5,
        save_targets: 6,
        multiple: 7,
        delete: 8,
        insert_property: 9,
        insert_selection: 10,
        net_wm_name: 11,
        atom: 12,
    }
}

fn engine(kind: SelectionType, limit: usize, merge: bool) -> Selection {
    let mut e = Selection::new(
        OrderedHashMap::new(),
        SelectionMetadata::new(),
        limit,
        merge,
        Vec::new(),
        kind,
        OWN,
        atoms(),
    );
    e.add_transfer_window(TransferWindow { id: WIN, atom: PROP });
    e
}

fn selection_atom(kind: SelectionType) -> u32 {
    match kind {
        SelectionType::PRIMARY => 1,
        SelectionType::CLIPBOARD => 2,
    }
}

/// Runs one capture of a single text target from `owner` at `now`.
fn capture_text(e: &mut Selection, kind: SelectionType, owner: u32, text: &[u8], now: u64) -> Transfer {
    let sel = selection_atom(kind);
    let req = e.on_owner_change(owner, sel, now);
    assert_eq!(
        req,
        Some(XRequest::ConvertSelection { requestor: WIN, selection: sel, target: 5, property: PROP })
    );
    let next = e.on_targets(WIN, sel, vec![(100, "UTF8_STRING".to_string())], now);
    assert_eq!(
        next,
        Some(XRequest::ConvertSelection { requestor: WIN, selection: sel, target: 100, property: PROP })
    );
    e.on_selection_data(WIN, 100, Some((STRING_TYPE, text.to_vec())), now)
}

fn front_text(e: &Selection) -> Vec<u8> {
    let (_, item) = e.history().front().unwrap();
    item.data.entry(0).1.clone()
}

#[test]
fn capture_adds_item_in_front() {
    let mut e = engine(SelectionType::CLIPBOARD, 100, false);
    match capture_text(&mut e, SelectionType::CLIPBOARD, 42, b"hello", 0) {
        Transfer::Captured(o) => {
            assert!(o.removed.is_empty());
            let (id, _) = e.history().front().unwrap();
            assert_eq!(o.new_item, Some(*id));
        }
        _ => panic!("expected a capture"),
    }
    assert_eq!(e.history().len(), 1);
    assert_eq!(front_text(&e), b"hello".to_vec());
    assert!(!e.needs_transfer_window());
    assert_eq!(e.transfers_in_flight(), 0);
}

#[test]
fn own_window_and_special_targets_are_skipped() {
    let mut e = engine(SelectionType::CLIPBOARD, 100, false);
    assert_eq!(e.on_owner_change(OWN, 2, 0), None);
    assert_eq!(e.transfers_in_flight(), 0);
    assert_eq!(e.targets_to_resolve(&vec![5, 4, 100, 6, 7, 8, 9, 10, 101]), vec![100, 101]);
    assert_eq!(e.offered_targets(12, Some(vec![5, 100])), vec![100]);
    assert!(e.offered_targets(3, Some(vec![5, 100])).is_empty());
    assert!(e.offered_targets(12, None).is_empty());
}

#[test]
fn recapture_resurfaces_with_same_id() {
    let mut e = engine(SelectionType::CLIPBOARD, 100, false);
    capture_text(&mut e, SelectionType::CLIPBOARD, 42, b"first", 0);
    let first_id = *e.history().front().unwrap().0;
    capture_text(&mut e, SelectionType::CLIPBOARD, 42, b"second", 10);
    match capture_text(&mut e, SelectionType::CLIPBOARD, 42, b"first", 20) {
        Transfer::Captured(o) => {
            assert_eq!(o.new_item, None);
            assert!(o.removed.is_empty());
        }
        _ => panic!("expected a capture"),
    }
    assert_eq!(e.history().len(), 2);
    assert_eq!(*e.history().front().unwrap().0, first_id);
    assert_eq!(front_text(&e), b"first".to_vec());
}

#[test]
fn content_id_is_stable_for_equal_data() {
    let mut a = SelectionData::new();
    a.insert("text/plain".to_string(), b"x".to_vec());
    a.insert("image/png".to_string(), b"y".to_vec());
    let mut b = SelectionData::new();
    b.insert("image/png".to_string(), b"y".to_vec());
    b.insert("text/plain".to_string(), b"x".to_vec());
    assert_eq!(content_id(&a), content_id(&b));
    let mut c = SelectionData::new();
    c.insert("text/plain".to_string(), b"z".to_vec());
    assert_ne!(content_id(&a), content_id(&c));
    assert_eq!(a.entry(0).0, "image/png");
}

#[test]
fn eviction_keeps_limit() {
    let mut e = engine(SelectionType::CLIPBOARD, 3, false);
    let mut evicted = 0;
    for i in 0..5u8 {
        if let Transfer::Captured(o) = capture_text(&mut e, SelectionType::CLIPBOARD, 42, &[b'a' + i], i as u64 * 10) {
            evicted += o.removed.len();
        }
        assert!(e.history().len() <= 3);
    }
    assert_eq!(e.history().len(), 3);
    assert_eq!(evicted, 2);
    assert_eq!(front_text(&e), b"e".to_vec());
}

#[test]
fn zero_limit_keeps_nothing() {
    let mut e = engine(SelectionType::CLIPBOARD, 0, false);
    match capture_text(&mut e, SelectionType::CLIPBOARD, 42, b"gone", 0) {
        Transfer::Captured(o) => {
            assert_eq!(o.new_item, None);
            assert_eq!(o.removed.len(), 1);
        }
        _ => panic!("expected a capture"),
    }
    assert_eq!(e.history().len(), 0);
}

#[test]
fn primary_drag_merges() {
    let mut e = engine(SelectionType::PRIMARY, 100, true);
    capture_text(&mut e, SelectionType::PRIMARY, 42, b"hel", 0);
    match capture_text(&mut e, SelectionType::PRIMARY, 42, b"hello", 500) {
        Transfer::Captured(o) => {
            assert_eq!(o.removed.len(), 1);
            assert!(o.new_item.is_some());
        }
        _ => panic!("expected a capture"),
    }
    assert_eq!(e.history().len(), 1);
    assert_eq!(front_text(&e), b"hello".to_vec());
}

#[test]
fn primary_no_merge_after_a_second_or_other_owner() {
    let mut e = engine(SelectionType::PRIMARY, 100, true);
    capture_text(&mut e, SelectionType::PRIMARY, 42, b"hel", 0);
    capture_text(&mut e, SelectionType::PRIMARY, 42, b"hello", 1000);
    assert_eq!(e.history().len(), 2);
    capture_text(&mut e, SelectionType::PRIMARY, 43, b"hello world", 1100);
    assert_eq!(e.history().len(), 3);
    capture_text(&mut e, SelectionType::PRIMARY, 43, b"xyz", 1200);
    assert_eq!(e.history().len(), 4);
}

#[test]
fn empty_targets_abandon_and_free_window() {
    let mut e = engine(SelectionType::CLIPBOARD, 100, false);
    e.on_owner_change(42, 2, 0);
    assert!(e.needs_transfer_window());
    let r = e.on_targets(WIN, 2, vec![(100, "x-kde-passwordManagerHint".to_string()), (101, "text/plain".to_string())], 0);
    assert_eq!(r, None);
    assert_eq!(e.transfers_in_flight(), 0);
    assert!(!e.needs_transfer_window());
}

#[test]
fn empty_payload_is_recorded() {
    let mut e = engine(SelectionType::CLIPBOARD, 100, false);
    assert!(matches!(capture_text(&mut e, SelectionType::CLIPBOARD, 42, b"", 0), Transfer::Captured(_)));
    assert_eq!(e.history().len(), 1);
    assert_eq!(front_text(&e), Vec::<u8>::new());
    assert!(!e.needs_transfer_window());
}

#[test]
fn refused_payload_is_recorded_empty() {
    let mut e = engine(SelectionType::CLIPBOARD, 100, false);
    e.on_owner_change(42, 2, 0);
    e.on_targets(WIN, 2, vec![(100, "text/plain".to_string())], 0);
    assert!(matches!(e.on_selection_data(WIN, 100, None, 1), Transfer::Captured(_)));
    let (_, item) = e.history().front().unwrap();
    assert_eq!(item.data.len(), 1);
    assert!(item.data.entry(0).1.is_empty());
}

#[test]
fn reply_to_unasked_target_records_nothing() {
    let mut e = engine(SelectionType::CLIPBOARD, 100, false);
    e.on_owner_change(42, 2, 0);
    e.on_targets(WIN, 2, vec![(100, "text/plain".to_string())], 0);
    match e.on_selection_data(WIN, 555, Some((STRING_TYPE, b"x".to_vec())), 1) {
        Transfer::Next(r) => assert_eq!(
            r,
            XRequest::ConvertSelection { requestor: WIN, selection: 2, target: 100, property: PROP }
        ),
        _ => panic!("expected the pending target again"),
    }
    assert_eq!(e.transfer_stage(WIN), Some(1));
}

#[test]
fn refused_targets_end_the_transfer() {
    let mut e = engine(SelectionType::CLIPBOARD, 100, false);
    e.on_owner_change(42, 2, 0);
    assert_eq!(e.on_targets(WIN, 2, Vec::new(), 0), None);
    assert_eq!(e.transfers_in_flight(), 0);
    assert!(!e.needs_transfer_window());
}

#[test]
fn unknown_windows_are_ignored() {
    let mut e = engine(SelectionType::CLIPBOARD, 100, false);
    assert!(matches!(e.on_selection_data(77, 100, None, 0), Transfer::Ignored));
    assert!(matches!(e.on_incr_chunk(77, vec![1], 0), Transfer::Ignored));
    assert_eq!(e.on_targets(77, 2, Vec::new(), 0), None);
    assert_eq!(e.transfer_stage(77), None);
}

#[test]
fn inbound_incr_gathers_chunks() {
    let mut e = engine(SelectionType::CLIPBOARD, 100, false);
    e.on_owner_change(42, 2, 0);
    assert_eq!(e.transfer_stage(WIN), Some(0));
    e.on_targets(WIN, 2, vec![(100, "text/plain".to_string())], 0);
    assert_eq!(e.transfer_stage(WIN), Some(1));
    assert!(matches!(e.on_selection_data(WIN, 100, Some((3, vec![0, 0, 0, 6])), 1), Transfer::Waiting));
    assert_eq!(e.transfer_stage(WIN), Some(2));
    assert!(e.is_chunk(WIN, PROP));
    assert!(!e.is_chunk(WIN, 11));
    assert!(matches!(e.on_incr_chunk(WIN, b"abc".to_vec(), 2), Transfer::Waiting));
    assert!(matches!(e.on_incr_chunk(WIN, b"def".to_vec(), 3), Transfer::Waiting));
    assert!(matches!(e.on_incr_chunk(WIN, Vec::new(), 4), Transfer::Captured(_)));
    assert_eq!(front_text(&e), b"abcdef".to_vec());
}

#[test]
fn inbound_incr_over_ceiling_aborts() {
    let mut e = engine(SelectionType::CLIPBOARD, 100, false);
    e.on_owner_change(42, 2, 0);
    e.on_targets(WIN, 2, vec![(100, "text/plain".to_string())], 0);
    e.on_selection_data(WIN, 100, Some((3, vec![])), 1);
    assert!(matches!(e.on_incr_chunk(WIN, vec![7u8; MAX_INCR_SIZE], 2), Transfer::Waiting));
    assert!(matches!(e.on_incr_chunk(WIN, vec![7u8], 3), Transfer::Abandoned));
    assert_eq!(e.transfer_stage(WIN), None);
    assert_eq!(e.transfers_in_flight(), 0);
    assert!(!e.needs_transfer_window());
    assert_eq!(e.history().len(), 0);
}

#[test]
fn two_targets_are_asked_in_turn() {
    let mut e = engine(SelectionType::CLIPBOARD, 100, false);
    e.on_owner_change(42, 2, 0);
    e.on_targets(WIN, 2, vec![(100, "text/plain".to_string()), (101, "image/png".to_string())], 0);
    match e.on_selection_data(WIN, 100, Some((STRING_TYPE, b"t".to_vec())), 1) {
        Transfer::Next(r) => assert_eq!(
            r,
            XRequest::ConvertSelection { requestor: WIN, selection: 2, target: 101, property: PROP }
        ),
        _ => panic!("expected the next request"),
    }
    assert!(matches!(e.on_selection_data(WIN, 101, Some((20, b"png".to_vec())), 2), Transfer::Captured(_)));
    let (_, item) = e.history().front().unwrap();
    assert_eq!(item.data.len(), 2);
}

#[test]
fn purge_ends_overdue_transfers() {
    let mut e = engine(SelectionType::CLIPBOARD, 100, false);
    e.on_owner_change(42, 2, 1000);
    e.purge_overdue_tasks(3999);
    assert_eq!(e.transfers_in_flight(), 1);
    e.purge_overdue_tasks(4000);
    assert_eq!(e.transfers_in_flight(), 0);
    assert!(!e.needs_transfer_window());
}

#[test]
fn serve_refuses_without_paste_item() {
    let mut e = engine(SelectionType::CLIPBOARD, 100, false);
    let r = e.on_selection_request(77, 2, 100, 300, 9, 0);
    assert_eq!(
        r,
        vec![
            XRequest::DeleteProperty { window: 77, property: 300 },
            XRequest::SelectionNotify { requestor: 77, selection: 2, target: 100, property: NONE, time: 9 },
        ]
    );
    let r = e.on_selection_request(77, 2, NONE, NONE, 9, 0);
    assert_eq!(
        r,
        vec![XRequest::SelectionNotify { requestor: 77, selection: 2, target: NONE, property: NONE, time: 9 }]
    );
}

#[test]
fn serve_targets_and_small_payload() {
    let mut e = engine(SelectionType::CLIPBOARD, 100, false);
    capture_text(&mut e, SelectionType::CLIPBOARD, 42, b"hi", 0);
    let id = *e.history().front().unwrap().0;
    e.set_paste_item(Some(id));
    assert!(e.names_without_atoms().is_empty());
    let r = e.on_selection_request(77, 2, 5, 300, 9, 0);
    assert_eq!(
        r,
        vec![
            XRequest::ChangeProperty32 { window: 77, property: 300, type_: 12, values: vec![5, 100] },
            XRequest::SelectionNotify { requestor: 77, selection: 2, target: 5, property: 300, time: 9 },
        ]
    );
    let r = e.on_selection_request(77, 2, 100, 300, 9, 0);
    assert_eq!(
        r,
        vec![
            XRequest::ChangeProperty8 { window: 77, property: 300, type_: 100, data: b"hi".to_vec() },
            XRequest::SelectionNotify { requestor: 77, selection: 2, target: 100, property: 300, time: 9 },
        ]
    );
    let r = e.on_selection_request(77, 1, 100, 300, 9, 0);
    assert_eq!(r.len(), 2);
    assert!(matches!(r[1], XRequest::SelectionNotify { property: NONE, .. }));
}

#[test]
fn serve_large_payload_in_chunks() {
    let payload: Vec<u8> = (0..5 * 1024 * 1024u32).map(|i| (i % 251) as u8).collect();
    let mut e = engine(SelectionType::CLIPBOARD, 100, false);
    e.on_owner_change(42, 2, 0);
    e.on_targets(WIN, 2, vec![(100, "text/plain".to_string())], 0);
    assert!(matches!(e.on_selection_data(WIN, 100, Some((STRING_TYPE, payload.clone())), 0), Transfer::Captured(_)));
    let id = *e.history().front().unwrap().0;
    e.set_paste_item(Some(id));
    let r = e.on_selection_request(77, 2, 100, 300, 9, 0);
    assert_eq!(
        r,
        vec![
            XRequest::WatchProperties { window: 77, watch: true },
            XRequest::ChangeProperty32 { window: 77, property: 300, type_: 3, values: vec![payload.len() as u32] },
            XRequest::SelectionNotify { requestor: 77, selection: 2, target: 100, property: 300, time: 9 },
        ]
    );
    let mut joined = Vec::new();
    let mut rounds = 0;
    loop {
        let r = e.on_incr_ack(77, 300, 1);
        rounds += 1;
        let chunk = match r.last() {
            Some(XRequest::ChangeProperty8 { data, .. }) => data.clone(),
            _ => panic!("expected a chunk"),
        };
        assert!(chunk.len() <= INCR_CHUNK_SIZE);
        if chunk.is_empty() {
            assert_eq!(r[0], XRequest::WatchProperties { window: 77, watch: false });
            break;
        }
        joined.extend_from_slice(&chunk);
    }
    assert_eq!(joined, payload);
    assert_eq!(rounds, 7);
    assert!(e.on_incr_ack(77, 300, 2).is_empty());
}

#[test]
fn paste_plans() {
    let mut e = engine(SelectionType::CLIPBOARD, 100, false);
    assert!(e.paste(5, OWN, None, (0, 0), (0, 0)).is_empty());
    let r = e.paste(5, 77, None, (0, 0), (0, 0));
    assert_eq!(
        r,
        vec![
            InputAction::TakeOwnership,
            InputAction::Key { press: true, key: KeyRef::Modifier(Modifier::Control) },
            InputAction::Key { press: true, key: KeyRef::Keysym(0x76) },
            InputAction::Key { press: false, key: KeyRef::Keysym(0x76) },
            InputAction::Key { press: false, key: KeyRef::Modifier(Modifier::Control) },
        ]
    );
    let keymaps = vec![(
        "XTerm".to_string(),
        vec![Binding { key: 0x76, modifiers: vec![Modifier::Control, Modifier::Shift] }],
    )];
    let mut e = Selection::new(
        OrderedHashMap::new(),
        SelectionMetadata::new(),
        100,
        false,
        keymaps,
        SelectionType::CLIPBOARD,
        OWN,
        atoms(),
    );
    let r = e.paste(5, 77, Some(("xterm".to_string(), "XTerm".to_string())), (0, 0), (0, 0));
    assert_eq!(
        r,
        vec![
            InputAction::TakeOwnership,
            InputAction::Key { press: true, key: KeyRef::Modifier(Modifier::Control) },
            InputAction::Key { press: true, key: KeyRef::Modifier(Modifier::Shift) },
            InputAction::Key { press: true, key: KeyRef::Keysym(0x76) },
            InputAction::Key { press: false, key: KeyRef::Keysym(0x76) },
            InputAction::Key { press: false, key: KeyRef::Modifier(Modifier::Shift) },
            InputAction::Key { press: false, key: KeyRef::Modifier(Modifier::Control) },
        ]
    );
    let mut p = engine(SelectionType::PRIMARY, 100, true);
    let r = p.paste(5, 77, None, (10, 20), (30, 40));
    assert_eq!(
        r,
        vec![
            InputAction::TakeOwnership,
            InputAction::MovePointer { x: 10, y: 20 },
            InputAction::Button { press: true, button: 2 },
            InputAction::Button { press: false, button: 2 },
            InputAction::MovePointer { x: 30, y: 40 },
        ]
    );
}

#[test]
fn wm_class_split() {
    assert_eq!(split_wm_class(&b"xterm\0XTerm\0".to_vec()), Some((b"xterm".to_vec(), b"XTerm".to_vec())));
    assert_eq!(split_wm_class(&b"solo".to_vec()), Some((b"solo".to_vec(), Vec::new())));
    assert_eq!(split_wm_class(&Vec::new()), None);
}

#[test]
fn pins_toggle() {
    let mut e = engine(SelectionType::CLIPBOARD, 100, false);
    assert_eq!(e.toggle_pin(1), Err(PinError::NotFound));
    capture_text(&mut e, SelectionType::CLIPBOARD, 42, b"pin me", 0);
    let id = *e.history().front().unwrap().0;
    assert_eq!(e.toggle_pin(id), Ok(true));
    assert_eq!(e.metadata().pinned(), &vec![id]);
    assert_eq!(e.toggle_pin(id), Ok(false));
    assert!(e.metadata().pinned().is_empty());
    let m = SelectionMetadata::from_pinned(vec![3, 3, 4]);
    assert_eq!(m.pinned(), &vec![3, 4]);
}

#[test]
fn capture_reports_what_changed() {
    let mut e = engine(SelectionType::CLIPBOARD, 2, false);
    capture_text(&mut e, SelectionType::CLIPBOARD, 42, b"one", 0);
    let one = *e.history().front().unwrap().0;
    capture_text(&mut e, SelectionType::CLIPBOARD, 42, b"two", 10);
    match capture_text(&mut e, SelectionType::CLIPBOARD, 42, b"three", 20) {
        Transfer::Captured(o) => {
            assert_eq!(o.new_item, Some(*e.history().front().unwrap().0));
            assert_eq!(o.removed.len(), 1);
            assert_eq!(o.removed[0].id, one);
        }
        _ => panic!("expected a capture"),
    }
    match capture_text(&mut e, SelectionType::CLIPBOARD, 42, b"two", 30) {
        Transfer::Captured(o) => {
            assert_eq!(o.new_item, None);
            assert!(o.removed.is_empty());
        }
        _ => panic!("expected a capture"),
    }
}

#[test]
fn drag_merge_reports_replaced_item() {
    let mut e = engine(SelectionType::PRIMARY, 100, true);
    capture_text(&mut e, SelectionType::PRIMARY, 42, b"hel", 0);
    let first = *e.history().front().unwrap().0;
    match capture_text(&mut e, SelectionType::PRIMARY, 42, b"hello", 300) {
        Transfer::Captured(o) => {
            assert_eq!(o.removed.len(), 1);
            assert_eq!(o.removed[0].id, first);
        }
        _ => panic!("expected a capture"),
    }
}
