use vstd::prelude::*;
use vstd::string::StringSliceAdditionalSpecFns;

verus! {

/// ASCII lower case of one byte; other bytes are left as they are.
pub open spec fn ascii_lower(b: u8) -> u8 {
    if 65 <= b <= 90 {
        (b + 32) as u8
    } else {
        b
    }
}

/// Byte strings that are equal once ASCII letters are folded to lower case.
pub open spec fn eq_ignore_ascii_case(a: Seq<u8>, b: Seq<u8>) -> bool {
    a.len() == b.len() && forall|i: int| 0 <= i < a.len() ==> ascii_lower(a[i]) == ascii_lower(b[i])
}

/// The rank of a plain-text MIME name, from least to most preferred;
/// `None` for a name that is not plain text.
pub open spec fn plaintext_rank(m: Seq<u8>) -> Option<nat> {
    if eq_ignore_ascii_case(m, "".spec_bytes()) {
        Some(0)
    } else if eq_ignore_ascii_case(m, "text/plain;charset=us-ascii".spec_bytes()) {
        Some(1)
    } else if eq_ignore_ascii_case(m, "text/plain;charset=unicode".spec_bytes()) {
        Some(2)
    } else if eq_ignore_ascii_case(m, "text".spec_bytes()) {
        Some(3)
    } else if eq_ignore_ascii_case(m, "string".spec_bytes()) {
        Some(4)
    } else if eq_ignore_ascii_case(m, "text/plain".spec_bytes()) {
        Some(5)
    } else if eq_ignore_ascii_case(m, "text/plain;charset=utf-8".spec_bytes()) {
        Some(6)
    } else if eq_ignore_ascii_case(m, "utf8_string".spec_bytes()) {
        Some(7)
    } else {
        None
    }
}

/// The rank of an image MIME name: JPEG < PNG < GIF < SVG, and 0 for any other.
pub open spec fn image_rank(m: Seq<u8>) -> nat {
    if eq_ignore_ascii_case(m, "image/jpeg".spec_bytes()) {
        1
    } else if eq_ignore_ascii_case(m, "image/png".spec_bytes()) {
        2
    } else if eq_ignore_ascii_case(m, "image/gif".spec_bytes()) {
        3
    } else if eq_ignore_ascii_case(m, "image/svg+xml".spec_bytes()) {
        4
    } else {
        0
    }
}

/// `m` starts with `image/`.
pub open spec fn is_image_name(m: Seq<u8>) -> bool {
    m.len() >= 6 && m.subrange(0, 6) == "image/".spec_bytes()
}

/// Compares two byte strings, folding ASCII letters to lower case.
pub fn bytes_eq_ignore_ascii_case(a: &[u8], b: &[u8]) -> (r: bool)
    ensures
        r == eq_ignore_ascii_case(a@, b@),
{
    if a.len() != b.len() {
        return false;
    }
    let mut i: usize = 0;
    while i < a.len()
        invariant
            a@.len() == b@.len(),
            i <= a@.len(),
            forall|j: int| 0 <= j < i ==> ascii_lower(a@[j]) == ascii_lower(b@[j]),
        decreases a@.len() - i,
    {
        let x = a[i];
        let y = b[i];
        let lx = if 65 <= x && x <= 90 {
            x + 32
        } else {
            x
        };
        let ly = if 65 <= y && y <= 90 {
            y + 32
        } else {
            y
        };
        if lx != ly {
            return false;
        }
        i += 1;
    }
    true
}

fn name_is(m: &str, name: &str) -> (r: bool)
    ensures
        r == eq_ignore_ascii_case(m.spec_bytes(), name.spec_bytes()),
{
    bytes_eq_ignore_ascii_case(m.as_bytes(), name.as_bytes())
}

/// The rank of a plain-text MIME name (ASCII case ignored), least preferred
/// first; `None` when the name is not one of the plain-text names.
pub fn plaintext_mime_score(mime: &str) -> (r: Option<usize>)
    ensures
        r matches Some(n) ==> plaintext_rank(mime.spec_bytes()) == Some(n as nat),
        r is None ==> plaintext_rank(mime.spec_bytes()) is None,
{
    if name_is(mime, "") {
        Some(0)
    } else if name_is(mime, "text/plain;charset=us-ascii") {
        Some(1)
    } else if name_is(mime, "text/plain;charset=unicode") {
        Some(2)
    } else if name_is(mime, "text") {
        Some(3)
    } else if name_is(mime, "string") {
        Some(4)
    } else if name_is(mime, "text/plain") {
        Some(5)
    } else if name_is(mime, "text/plain;charset=utf-8") {
        Some(6)
    } else if name_is(mime, "utf8_string") {
        Some(7)
    } else {
        None
    }
}

/// Whether `mime` is one of the plain-text MIME names.
pub fn is_plaintext_mime(mime: &str) -> (r: bool)
    ensures
        r == plaintext_rank(mime.spec_bytes()) is Some,
{
    plaintext_mime_score(mime).is_some()
}

/// The rank of an image MIME name: 1 for JPEG up to 4 for SVG, 0 for others.
pub fn image_mime_score(mime: &str) -> (r: usize)
    ensures
        r == image_rank(mime.spec_bytes()),
{
    if name_is(mime, "image/jpeg") {
        1
    } else if name_is(mime, "image/png") {
        2
    } else if name_is(mime, "image/gif") {
        3
    } else if name_is(mime, "image/svg+xml") {
        4
    } else {
        0
    }
}

/// Whether `mime` starts with `image/`.
pub fn is_image_mime(mime: &str) -> (r: bool)
    ensures
        r == is_image_name(mime.spec_bytes()),
{
    let m = mime.as_bytes();
    let p = "image/".as_bytes();
    proof {
        reveal_strlit("image/");
        vstd::string::is_ascii_spec_bytes("image/");
        assert(vstd::string::is_ascii("image/"));
        assert(p@.len() == 6);
    }
    if m.len() < 6 {
        return false;
    }
    let mut i: usize = 0;
    while i < 6
        invariant
            p@.len() == 6,
            m@.len() >= 6,
            m@ == mime.spec_bytes(),
            p@ == "image/".spec_bytes(),
            i <= 6,
            forall|j: int| 0 <= j < i ==> m@[j] == p@[j],
        decreases 6 - i,
    {
        if m[i] != p[i] {
            proof {
                assert(m@.subrange(0, 6)[i as int] != p@[i as int]);
            }
            return false;
        }
        i += 1;
    }
    proof {
        assert(m@.subrange(0, 6) =~= p@);
    }
    true
}

/// An ASCII hexadecimal digit.
pub open spec fn is_hex_digit(b: u8) -> bool {
    (48 <= b <= 57) || (65 <= b <= 70) || (97 <= b <= 102)
}

/// The value of an ASCII hexadecimal digit.
pub open spec fn hex_value(b: u8) -> int {
    if 48 <= b <= 57 {
        b - 48
    } else if 65 <= b <= 70 {
        b - 55
    } else {
        b - 87
    }
}

/// Two bytes after `%` that read as a byte in base 16: two digits, or `+`
/// and one digit (a sign that base-16 parsing accepts).
pub open spec fn is_escape(x: u8, y: u8) -> bool {
    (is_hex_digit(x) && is_hex_digit(y)) || (x == 43 && is_hex_digit(y))
}

/// The byte that an escape stands for.
pub open spec fn escape_value(x: u8, y: u8) -> u8 {
    if x == 43 {
        hex_value(y) as u8
    } else {
        (16 * hex_value(x) + hex_value(y)) as u8
    }
}

/// `s` with each escape `%XY` replaced by the byte it stands for; a `%` that
/// starts no escape is kept with the (up to two) bytes after it.
pub open spec fn percent_decoded(s: Seq<u8>) -> Seq<u8>
    decreases s.len(),
{
    if s.len() == 0 {
        Seq::empty()
    } else if s[0] != 37 {
        seq![s[0]] + percent_decoded(s.drop_first())
    } else if s.len() >= 3 && is_escape(s[1], s[2]) {
        seq![escape_value(s[1], s[2])] + percent_decoded(s.subrange(3, s.len() as int))
    } else {
        let k = if s.len() < 3 {
            s.len() as int
        } else {
            3
        };
        s.subrange(0, k) + percent_decoded(s.subrange(k, s.len() as int))
    }
}

fn hex_digit_value(b: u8) -> (r: Option<u8>)
    ensures
        r is Some <==> is_hex_digit(b),
        r matches Some(v) ==> v == hex_value(b) && v < 16,
{
    if 48 <= b && b <= 57 {
        Some(b - 48)
    } else if 65 <= b && b <= 70 {
        Some(b - 55)
    } else if 97 <= b && b <= 102 {
        Some(b - 87)
    } else {
        None
    }
}

/// Decodes percent escapes (see `percent_decoded`).
pub fn percent_decode(input: &[u8]) -> (r: Vec<u8>)
    ensures
        r@ == percent_decoded(input@),
{
    let n = input.len();
    let mut out: Vec<u8> = Vec::new();
    let mut i: usize = 0;
    proof {
        assert(input@.subrange(0, n as int) =~= input@);
        assert(out@ + percent_decoded(input@) =~= percent_decoded(input@));
    }
    while i < n
        invariant
            n == input@.len(),
            i <= n,
            out@ + percent_decoded(input@.subrange(i as int, n as int)) == percent_decoded(input@),
        decreases n - i,
    {
        let ghost rest = input@.subrange(i as int, n as int);
        let b = input[i];
        proof {
            assert(rest[0] == b);
        }
        if b != 37 {
            out.push(b);
            proof {
                assert(rest.drop_first() =~= input@.subrange(i + 1, n as int));
                assert(out@ + percent_decoded(input@.subrange(i + 1, n as int)) =~= percent_decoded(input@));
            }
            i += 1;
        } else {
            let x = if n - i > 1 { Some(input[i + 1]) } else { None };
            let y = if n - i > 2 { Some(input[i + 2]) } else { None };
            let mut decoded: Option<u8> = None;
            if let (Some(x), Some(y)) = (x, y) {
                proof {
                    assert(rest[1] == x && rest[2] == y);
                }
                match (hex_digit_value(x), hex_digit_value(y)) {
                    (Some(hx), Some(hy)) => {
                        decoded = Some(16 * hx + hy);
                    },
                    (None, Some(hy)) => {
                        if x == 43 {
                            decoded = Some(hy);
                        }
                    },
                    _ => {},
                }
            }
            match decoded {
                Some(v) => {
                    out.push(v);
                    proof {
                        assert(rest.subrange(3, rest.len() as int) =~= input@.subrange(i + 3, n as int));
                        assert(out@ + percent_decoded(input@.subrange(i + 3, n as int)) =~= percent_decoded(input@));
                    }
                    i += 3;
                },
                None => {
                    let k: usize = if n - i < 3 { n - i } else { 3 };
                    let mut j: usize = 0;
                    let ghost before = out@;
                    while j < k
                        invariant
                            i + k <= n,
                            n == input@.len(),
                            j <= k,
                            out@ == before + input@.subrange(i as int, i + j),
                        decreases k - j,
                    {
                        out.push(input[i + j]);
                        proof {
                            assert(out@ =~= before + input@.subrange(i as int, i + j + 1));
                        }
                        j += 1;
                    }
                    proof {
                        assert(rest.subrange(0, k as int) =~= input@.subrange(i as int, i + k));
                        assert(rest.subrange(k as int, rest.len() as int) =~= input@.subrange(i + k, n as int));
                        if k == 3 {
                            assert(rest[1] == input@[i + 1] && rest[2] == input@[i + 2]);
                        }
                        assert(out@ + percent_decoded(input@.subrange(i + k, n as int)) =~= percent_decoded(input@));
                    }
                    i += k;
                },
            }
        }
    }
    proof {
        assert(input@.subrange(n as int, n as int) =~= Seq::<u8>::empty());
        assert(out@ + Seq::<u8>::empty() =~= out@);
    }
    out
}

/// A byte that a URI keeps as it is.
pub open spec fn is_unreserved(b: u8) -> bool {
    (65 <= b <= 90) || (97 <= b <= 122) || (48 <= b <= 57) || b == 33 || b == 36 || b == 38 || b == 39
        || b == 40 || b == 41 || b == 42 || b == 43 || b == 44 || b == 45 || b == 46 || b == 58 || b == 61
        || b == 64 || b == 95 || b == 126
}

/// An upper-case ASCII hexadecimal digit of value `d`.
pub open spec fn hex_upper(d: int) -> u8 {
    if d < 10 {
        (48 + d) as u8
    } else {
        (55 + d) as u8
    }
}

/// One byte percent-encoded.
pub open spec fn encoded_byte(b: u8) -> Seq<u8> {
    if is_unreserved(b) {
        seq![b]
    } else {
        seq![37u8, hex_upper(b as int / 16), hex_upper(b as int % 16)]
    }
}

/// Every byte of `s` percent-encoded, in order.
pub open spec fn percent_encoded(s: Seq<u8>) -> Seq<u8>
    decreases s.len(),
{
    if s.len() == 0 {
        Seq::empty()
    } else {
        encoded_byte(s[0]) + percent_encoded(s.drop_first())
    }
}

/// Percent-encodes every byte that is not unreserved, with upper-case digits.
pub fn percent_encode(input: &[u8]) -> (r: Vec<u8>)
    ensures
        r@ == percent_encoded(input@),
{
    let n = input.len();
    let mut out: Vec<u8> = Vec::new();
    let mut i: usize = 0;
    proof {
        assert(input@.subrange(0, n as int) =~= input@);
        assert(out@ + percent_encoded(input@) =~= percent_encoded(input@));
    }
    while i < n
        invariant
            n == input@.len(),
            i <= n,
            out@ + percent_encoded(input@.subrange(i as int, n as int)) == percent_encoded(input@),
        decreases n - i,
    {
        let b = input[i];
        let ghost rest = input@.subrange(i as int, n as int);
        proof {
            assert(rest[0] == b);
            assert(rest.drop_first() =~= input@.subrange(i + 1, n as int));
        }
        let keep = (65 <= b && b <= 90) || (97 <= b && b <= 122) || (48 <= b && b <= 57) || b == 33 || b
            == 36 || b == 38 || b == 39 || b == 40 || b == 41 || b == 42 || b == 43 || b == 44 || b == 45
            || b == 46 || b == 58 || b == 61 || b == 64 || b == 95 || b == 126;
        if keep {
            out.push(b);
        } else {
            let hi = b / 16;
            let lo = b % 16;
            out.push(37);
            out.push(if hi < 10 { 48 + hi } else { 55 + hi });
            out.push(if lo < 10 { 48 + lo } else { 55 + lo });
        }
        proof {
            assert(out@ + percent_encoded(input@.subrange(i + 1, n as int)) =~= percent_encoded(input@));
        }
        i += 1;
    }
    proof {
        assert(input@.subrange(n as int, n as int) =~= Seq::<u8>::empty());
        assert(out@ + Seq::<u8>::empty() =~= out@);
    }
    out
}

/// A lower-case ASCII hexadecimal digit of value `d`.
pub open spec fn hex_lower(d: int) -> char {
    if d < 10 {
        ((48 + d) as u8) as char
    } else {
        ((87 + d) as u8) as char
    }
}

/// Two lower-case hexadecimal digits for each byte of `s`.
pub open spec fn hex_string(s: Seq<u8>) -> Seq<char>
    decreases s.len(),
{
    if s.len() == 0 {
        Seq::empty()
    } else {
        hex_string(s.drop_last()) + seq![hex_lower(s.last() as int / 16), hex_lower(s.last() as int % 16)]
    }
}

/// Relies on `String`'s `FromIterator<char>`: the string holds the characters in order.
#[verifier::external_body]
fn string_from_chars(chars: Vec<char>) -> (r: String)
    ensures
        r@ == chars@,
{
    chars.into_iter().collect()
}

/// The bytes as lower-case hexadecimal, two digits each.
pub fn to_hex_string(bytes: &[u8]) -> (r: String)
    ensures
        r@ == hex_string(bytes@),
{
    let mut out: Vec<char> = Vec::new();
    let mut i: usize = 0;
    while i < bytes.len()
        invariant
            i <= bytes@.len(),
            out@ == hex_string(bytes@.subrange(0, i as int)),
        decreases bytes@.len() - i,
    {
        let b = bytes[i];
        let hi = b / 16;
        let lo = b % 16;
        let ch: char = (if hi < 10 { 48 + hi } else { 87 + hi }) as char;
        let cl: char = (if lo < 10 { 48 + lo } else { 87 + lo }) as char;
        out.push(ch);
        out.push(cl);
        proof {
            assert(bytes@.subrange(0, i + 1).drop_last() =~= bytes@.subrange(0, i as int));
            assert(out@ =~= hex_string(bytes@.subrange(0, i + 1)));
        }
        i += 1;
    }
    proof {
        assert(bytes@.subrange(0, bytes@.len() as int) =~= bytes@);
    }
    string_from_chars(out)
}

} // verus!
