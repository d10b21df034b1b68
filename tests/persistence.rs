use memoni::persistence::{
    encode_file, history_from_items, load_plan, load_result, Persistence, SaveJob, WriteStep,
};
use memoni::selection::{SelectionItem, SelectionType};
use memoni::selection_data::SelectionData;

fn item(id: u64, text: &str) -> SelectionItem {
    let mut data = SelectionData::new();
    data.insert("text/plain".to_string(), text.as_bytes().to_vec());
    SelectionItem { id, data }
}

#[test]
fn framing_round_trip() {
    let payload = vec![9u8, 8, 7];
    let file = encode_file(&payload);
    assert_eq!(file, vec![2, 0, 0, 0, 9, 8, 7]);
    let plan = load_plan(&file);
    assert_eq!(plan.versioned, Some(payload));
    assert_eq!(plan.legacy, file);
}

#[test]
fn legacy_files_go_to_fallback_only() {
    let plan = load_plan(&vec![1, 5, 0, 0, 3]);
    assert_eq!(plan.versioned, None);
    assert_eq!(plan.legacy, vec![1, 5, 0, 0, 3]);
    let short = load_plan(&vec![0]);
    assert_eq!(short.versioned, None);
    assert_eq!(short.legacy, vec![0]);
}

#[test]
fn legacy_items_keep_order() {
    let h = history_from_items(vec![item(30, "c"), item(10, "a"), item(20, "b")]);
    let ids: Vec<u64> = (0..h.len()).map(|i| *h.get_by_index(i).unwrap().0).collect();
    assert_eq!(ids, vec![30, 10, 20]);
    let dup = history_from_items(vec![item(1, "x"), item(2, "y"), item(1, "x")]);
    let ids: Vec<u64> = (0..dup.len()).map(|i| *dup.get_by_index(i).unwrap().0).collect();
    assert_eq!(ids, vec![2, 1]);
}

#[test]
fn save_steps_write_sync_rename() {
    let mut job = SaveJob::new(150000);
    assert_eq!(job.step(false), WriteStep::Write { from: 0, to: 65536 });
    assert_eq!(job.step(false), WriteStep::Write { from: 65536, to: 131072 });
    assert_eq!(job.step(false), WriteStep::Write { from: 131072, to: 150000 });
    assert_eq!(job.step(false), WriteStep::Sync);
    assert_eq!(job.step(false), WriteStep::Rename);
    assert_eq!(job.step(false), WriteStep::Stop);
}

#[test]
fn cancelled_save_never_renames() {
    let mut job = SaveJob::new(100000);
    assert_eq!(job.step(false), WriteStep::Write { from: 0, to: 65536 });
    assert_eq!(job.step(true), WriteStep::Stop);
    assert_eq!(job.step(false), WriteStep::Stop);
    assert_eq!(job.step(false), WriteStep::Stop);
}

#[test]
fn history_paths() {
    let p = Persistence::new(&b"/home/u/.local/share/memoni".to_vec(), SelectionType::CLIPBOARD);
    assert_eq!(p.file_path(), &b"/home/u/.local/share/memoni/clipboard_selections".to_vec());
    assert_eq!(p.temp_file_path(), &b"/home/u/.local/share/memoni/clipboard_selections.tmp".to_vec());
    let q = Persistence::new(&b"/d".to_vec(), SelectionType::PRIMARY);
    assert_eq!(q.file_path(), &b"/d/primary_selections".to_vec());
}

#[test]
fn versioned_decode_wins_and_legacy_is_the_fallback() {
    let mut legacy_tried = false;
    let r: Result<u8, &str> = load_result(Some(Ok(1)), || {
        legacy_tried = true;
        Ok(2)
    });
    assert_eq!(r, Ok(1));
    assert!(!legacy_tried);
    let r: Result<u8, &str> = load_result(Some(Err("versioned")), || Ok(2));
    assert_eq!(r, Ok(2));
    let r: Result<u8, &str> = load_result(Some(Err("versioned")), || Err("legacy"));
    assert_eq!(r, Err("versioned"));
    let r: Result<u8, &str> = load_result(None, || Err("legacy"));
    assert_eq!(r, Err("legacy"));
}
