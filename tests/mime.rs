use memoni::mime_filter::filter_mimes;
use memoni::selection::contains;
use memoni::utils::{
    bytes_eq_ignore_ascii_case, image_mime_score, is_image_mime, is_plaintext_mime, percent_decode,
    percent_encode, plaintext_mime_score, to_hex_string,
};

fn targets(names: &[(u32, &str)]) -> Vec<(u32, String)> {
    names.iter().map(|(a, n)| (*a, n.to_string())).collect()
}

#[test]
fn plaintext_scores_follow_table() {
    assert_eq!(plaintext_mime_score(""), Some(0));
    assert_eq!(plaintext_mime_score("TEXT/plain"), Some(5));
    assert_eq!(plaintext_mime_score("text/plain;charset=utf-8"), Some(6));
    assert_eq!(plaintext_mime_score("UTF8_STRING"), Some(7));
    assert_eq!(plaintext_mime_score("text/html"), None);
    assert!(is_plaintext_mime("STRING"));
    assert!(!is_plaintext_mime("image/png"));
}

#[test]
fn image_scores_follow_table() {
    assert_eq!(image_mime_score("image/jpeg"), 1);
    assert_eq!(image_mime_score("IMAGE/PNG"), 2);
    assert_eq!(image_mime_score("image/gif"), 3);
    assert_eq!(image_mime_score("image/svg+xml"), 4);
    assert_eq!(image_mime_score("image/bmp"), 0);
    assert!(is_image_mime("image/bmp"));
    assert!(!is_image_mime("imag"));
    assert!(!is_image_mime("IMAGE/png"));
}

#[test]
fn ascii_case_folding() {
    assert!(bytes_eq_ignore_ascii_case(b"Text/Plain", b"text/plain"));
    assert!(!bytes_eq_ignore_ascii_case(b"text", b"texts"));
    assert!(!bytes_eq_ignore_ascii_case(b"[", b"{"));
}

#[test]
fn filter_keeps_best_text_and_image() {
    let got = filter_mimes(targets(&[
        (1, "text/plain"),
        (2, "text/plain;charset=utf-8"),
        (3, "image/png"),
        (4, "image/jpeg"),
        (5, "text/html"),
        (6, "application/x-foo"),
    ]));
    assert_eq!(
        got,
        targets(&[
            (5, "text/html"),
            (6, "application/x-foo"),
            (2, "text/plain;charset=utf-8"),
            (3, "image/png"),
        ])
    );
}

#[test]
fn filter_ties_go_to_the_lowest_atom() {
    let got = filter_mimes(targets(&[(7, "image/bmp"), (8, "image/tiff")]));
    assert_eq!(got, targets(&[(7, "image/bmp")]));
    let got = filter_mimes(targets(&[(8, "image/tiff"), (7, "image/bmp")]));
    assert_eq!(got, targets(&[(7, "image/bmp")]));
    let got = filter_mimes(targets(&[(9, "TEXT"), (3, "text")]));
    assert_eq!(got, targets(&[(3, "text")]));
}

#[test]
fn filter_ignores_offer_order() {
    let a = targets(&[(1, "text/plain"), (2, "image/png"), (5, "text/html"), (4, "image/gif")]);
    let b = targets(&[(4, "image/gif"), (5, "text/html"), (2, "image/png"), (1, "text/plain")]);
    let mut x = filter_mimes(a);
    let mut y = filter_mimes(b);
    x.sort();
    y.sort();
    assert_eq!(x, y);
    assert_eq!(x, targets(&[(1, "text/plain"), (4, "image/gif"), (5, "text/html")]));
}

#[test]
fn password_hint_filters_everything() {
    let got = filter_mimes(targets(&[
        (1, "text/plain"),
        (2, "x-kde-passwordManagerHint"),
        (3, "image/png"),
    ]));
    assert!(got.is_empty());
    assert!(filter_mimes(targets(&[(2, "x-kde-passwordManagerHint")])).is_empty());
    assert!(filter_mimes(Vec::new()).is_empty());
}

#[test]
fn percent_round_trip_and_quirks() {
    assert_eq!(percent_encode(b"a b/\xff~"), b"a%20b%2F%FF~".to_vec());
    assert_eq!(percent_decode(b"a%20b%2f%FF~"), b"a b/\xff~".to_vec());
    assert_eq!(percent_decode(b"100%"), b"100%".to_vec());
    assert_eq!(percent_decode(b"%zz!"), b"%zz!".to_vec());
    assert_eq!(percent_decode(b"%4"), b"%4".to_vec());
    assert_eq!(percent_decode(b"%+5"), vec![5u8]);
    let all: Vec<u8> = (0..=255u8).collect();
    assert_eq!(percent_decode(&percent_encode(&all)), all);
}

#[test]
fn hex_string_is_lower_case() {
    assert_eq!(to_hex_string(&[0x00, 0xab, 0x7f, 0xff]), "00ab7fff");
    assert_eq!(to_hex_string(&[]), "");
}

#[test]
fn substring_search() {
    assert!(contains(b"hello world", b"lo w"));
    assert!(contains(b"abc", b""));
    assert!(!contains(b"abc", b"abcd"));
    assert!(!contains(b"abc", b"ac"));
}
