use memoni::atom_pool::AtomPool;
use memoni::actions::{PasteModifier, ScrollAction};
use memoni::config::{default_clipboard_config, default_primary_config, Color, ThemeConfig};
use memoni::transfer_window_pool::{decimal_digits, TransferWindow, TransferWindowPool};

#[test]
fn flipped_reverses_direction() {
    assert_eq!(ScrollAction::ItemUp.flipped(), ScrollAction::ItemDown);
    assert_eq!(ScrollAction::ToBottom.flipped(), ScrollAction::ToTop);
    assert_eq!(ScrollAction::HalfDown.flipped().flipped(), ScrollAction::HalfDown);
    let p = PasteModifier::plain();
    assert!(!p.trim && !p.and_enter);
}

#[test]
fn colors_and_themes() {
    let c = Color::from_argb(0x55, 0x00, 0x00, 0xff);
    assert_eq!(c, Color(0x550000ff));
    assert_eq!(Color(0x30ff0010).channels(), (0x30, 0xff, 0x00, 0x10));
    assert_eq!(default_clipboard_config().ribbon, Color(0x550000ff));
    assert_eq!(default_primary_config().ribbon, Color(0x30ff0000));
    assert_eq!(ThemeConfig::new().background, Color(0xff191919));
}

#[test]
fn pool_is_fifo_and_names_windows() {
    let mut pool = TransferWindowPool::new();
    assert_eq!(pool.get(), None);
    pool.release(TransferWindow { id: 1, atom: 10 });
    pool.release(TransferWindow { id: 2, atom: 20 });
    pool.release(TransferWindow { id: 1, atom: 10 });
    assert_eq!(pool.len(), 2);
    assert_eq!(pool.get(), Some(TransferWindow { id: 1, atom: 10 }));
    assert_eq!(pool.get(), Some(TransferWindow { id: 2, atom: 20 }));
    let (title, atom) = pool.next_names();
    assert_eq!(title, b"Memoni transfer window 0".to_vec());
    assert_eq!(atom, b"TRANSFER_SELECTION_DATA_0".to_vec());
    let (title, _) = pool.next_names();
    assert_eq!(title, b"Memoni transfer window 1".to_vec());
    assert_eq!(decimal_digits(255), b"255".to_vec());
    assert_eq!(decimal_digits(7), b"7".to_vec());
}

#[test]
fn atom_pool_reuses_last_released() {
    let mut pool = AtomPool::new(b"PASTE_");
    assert_eq!(pool.get(), None);
    pool.release(7);
    pool.release(8);
    assert_eq!(pool.get(), Some(8));
    assert_eq!(pool.get(), Some(7));
    assert_eq!(pool.next_name(), b"PASTE_0".to_vec());
    assert_eq!(pool.next_name(), b"PASTE_1".to_vec());
}
