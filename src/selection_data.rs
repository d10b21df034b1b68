use vstd::prelude::*;
use vstd::utf8::encode_utf8;

verus! {

/// Byte-wise lexicographic order, as `str` orders.
pub open spec fn lex_lt(a: Seq<u8>, b: Seq<u8>) -> bool
    decreases a.len(),
{
    if a.len() == 0 {
        b.len() > 0
    } else if b.len() == 0 {
        false
    } else if a[0] < b[0] {
        true
    } else if a[0] > b[0] {
        false
    } else {
        lex_lt(a.drop_first(), b.drop_first())
    }
}

proof fn lemma_lex_irreflexive(a: Seq<u8>)
    ensures
        !lex_lt(a, a),
    decreases a.len(),
{
    if a.len() > 0 {
        lemma_lex_irreflexive(a.drop_first());
    }
}

proof fn lemma_lex_transitive(a: Seq<u8>, b: Seq<u8>, c: Seq<u8>)
    requires
        lex_lt(a, b),
        lex_lt(b, c),
    ensures
        lex_lt(a, c),
    decreases a.len(),
{
    if a.len() > 0 && b.len() > 0 && c.len() > 0 && a[0] == b[0] && b[0] == c[0] {
        lemma_lex_transitive(a.drop_first(), b.drop_first(), c.drop_first());
    }
}

proof fn lemma_lex_total(a: Seq<u8>, b: Seq<u8>)
    ensures
        a != b ==> lex_lt(a, b) || lex_lt(b, a),
        !(lex_lt(a, b) && lex_lt(b, a)),
    decreases a.len(),
{
    if a.len() > 0 && b.len() > 0 && a[0] == b[0] {
        lemma_lex_total(a.drop_first(), b.drop_first());
        if a != b {
            assert(a.drop_first() != b.drop_first()) by {
                if a.drop_first() == b.drop_first() {
                    assert(a =~= seq![a[0]] + a.drop_first());
                    assert(b =~= seq![b[0]] + b.drop_first());
                }
            }
        }
    } else if a.len() == 0 && b.len() == 0 {
        assert(a =~= b);
    }
}

/// The sort key of a MIME name: its UTF-8 bytes.
pub open spec fn name_key(n: Seq<char>) -> Seq<u8> {
    encode_utf8(n)
}

/// Names strictly increase along `s`.
pub open spec fn names_sorted(s: Seq<(Seq<char>, Seq<u8>)>) -> bool {
    forall|i: int, j: int| 0 <= i < j < s.len() ==> lex_lt(name_key(s[i].0), name_key(s[j].0))
}

/// The position of the first entry named `n`, if any.
pub open spec fn name_index(s: Seq<(Seq<char>, Seq<u8>)>, n: Seq<char>) -> Option<int> {
    if exists|i: int| 0 <= i < s.len() && #[trigger] s[i].0 == n {
        Some(
            choose|i: int|
                0 <= i < s.len() && #[trigger] s[i].0 == n && forall|j: int| 0 <= j < i ==> s[j].0 != n,
        )
    } else {
        None
    }
}

/// The first entry named `n` is at `i`.
pub proof fn lemma_name_index(s: Seq<(Seq<char>, Seq<u8>)>, n: Seq<char>, i: int)
    requires
        0 <= i < s.len(),
        s[i].0 == n,
        forall|j: int| 0 <= j < i ==> s[j].0 != n,
    ensures
        name_index(s, n) == Some(i),
{
    assert(exists|k: int| 0 <= k < s.len() && #[trigger] s[k].0 == n && forall|j: int| 0 <= j < k ==> s[j].0 != n);
    let c = choose|k: int| 0 <= k < s.len() && #[trigger] s[k].0 == n && forall|j: int| 0 <= j < k ==> s[j].0 != n;
    if c < i {
        assert(s[c].0 != n);
    } else if c > i {
        assert(s[i].0 != n);
    }
}

/// The payload stored under `n`, if any.
pub open spec fn payload_of(s: Seq<(Seq<char>, Seq<u8>)>, n: Seq<char>) -> Option<Seq<u8>> {
    match name_index(s, n) {
        Some(i) => Some(s[i].1),
        None => None,
    }
}

/// Entry `p` divides `s` at name `n`: every name before it sorts below `n`,
/// none from it on does.
pub open spec fn splits_at(s: Seq<(Seq<char>, Seq<u8>)>, n: Seq<char>, p: int) -> bool {
    &&& 0 <= p <= s.len()
    &&& forall|j: int| 0 <= j < p ==> lex_lt(name_key(#[trigger] s[j].0), name_key(n))
    &&& forall|j: int| p <= j < s.len() ==> !lex_lt(name_key(#[trigger] s[j].0), name_key(n))
}

/// Where an entry named `n` goes in name order.
pub open spec fn insert_position(s: Seq<(Seq<char>, Seq<u8>)>, n: Seq<char>) -> int {
    choose|p: int| splits_at(s, n, p)
}

/// `s` with payload `b` stored under name `n`: replacing the payload of an
/// entry of that name, or placed in name order.
pub open spec fn with_entry(s: Seq<(Seq<char>, Seq<u8>)>, n: Seq<char>, b: Seq<u8>) -> Seq<(Seq<char>, Seq<u8>)> {
    match name_index(s, n) {
        Some(i) => s.update(i, (n, b)),
        None => s.insert(insert_position(s, n), (n, b)),
    }
}

proof fn lemma_insert_position(s: Seq<(Seq<char>, Seq<u8>)>, n: Seq<char>, p: int)
    requires
        splits_at(s, n, p),
    ensures
        insert_position(s, n) == p,
{
    let c = insert_position(s, n);
    assert(splits_at(s, n, c));
    if c < p {
        assert(lex_lt(name_key(s[c].0), name_key(n)));
    } else if c > p {
        assert(lex_lt(name_key(s[p].0), name_key(n)));
    }
}

/// Compares two byte strings in lexicographic order.
pub fn compare_bytes(a: &[u8], b: &[u8]) -> (r: std::cmp::Ordering)
    ensures
        r == std::cmp::Ordering::Less <==> lex_lt(a@, b@),
        r == std::cmp::Ordering::Greater <==> lex_lt(b@, a@),
        r == std::cmp::Ordering::Equal <==> a@ == b@,
{
    proof {
        lemma_lex_total(a@, b@);
        lemma_lex_irreflexive(a@);
    }
    let mut i: usize = 0;
    proof {
        assert(a@.subrange(0, a@.len() as int) =~= a@);
        assert(b@.subrange(0, b@.len() as int) =~= b@);
    }
    while i < a.len() && i < b.len()
        invariant
            i <= a@.len(),
            i <= b@.len(),
            a@.subrange(0, i as int) == b@.subrange(0, i as int),
            lex_lt(a@, b@) == lex_lt(a@.subrange(i as int, a@.len() as int), b@.subrange(i as int, b@.len() as int)),
            lex_lt(b@, a@) == lex_lt(b@.subrange(i as int, b@.len() as int), a@.subrange(i as int, a@.len() as int)),
        decreases a@.len() - i,
    {
        let ghost sa = a@.subrange(i as int, a@.len() as int);
        let ghost sb = b@.subrange(i as int, b@.len() as int);
        proof {
            assert(sa[0] == a@[i as int]);
            assert(sb[0] == b@[i as int]);
        }
        if a[i] < b[i] {
            return std::cmp::Ordering::Less;
        } else if a[i] > b[i] {
            return std::cmp::Ordering::Greater;
        }
        proof {
            assert(sa.drop_first() =~= a@.subrange(i + 1, a@.len() as int));
            assert(sb.drop_first() =~= b@.subrange(i + 1, b@.len() as int));
            assert(a@.subrange(0, i + 1) =~= a@.subrange(0, i as int).push(a@[i as int]));
            assert(b@.subrange(0, i + 1) =~= b@.subrange(0, i as int).push(b@[i as int]));
        }
        i += 1;
    }
    if a.len() == b.len() {
        proof {
            assert(a@ =~= a@.subrange(0, i as int));
            assert(b@ =~= b@.subrange(0, i as int));
        }
        std::cmp::Ordering::Equal
    } else if a.len() < b.len() {
        std::cmp::Ordering::Less
    } else {
        std::cmp::Ordering::Greater
    }
}

/// The payloads of one captured selection: MIME name to bytes, kept sorted by
/// name so that equal contents always have the same entry order.
#[derive(Debug)]
pub struct SelectionData {
    entries: Vec<(String, Vec<u8>)>,
}

/// One entry as plain values.
pub open spec fn entry_view(e: (String, Vec<u8>)) -> (Seq<char>, Seq<u8>) {
    (e.0@, e.1@)
}

impl View for SelectionData {
    type V = Seq<(Seq<char>, Seq<u8>)>;

    closed spec fn view(&self) -> Seq<(Seq<char>, Seq<u8>)> {
        self.entries@.map_values(|e: (String, Vec<u8>)| entry_view(e))
    }
}

impl SelectionData {
    /// Well-formed: names strictly increase.
    pub open spec fn wf(&self) -> bool {
        names_sorted(self@)
    }

    /// No payload at all.
    pub fn new() -> (r: Self)
        ensures
            r@ == Seq::<(Seq<char>, Seq<u8>)>::empty(),
            r.wf(),
    {
        let r = SelectionData { entries: Vec::new() };
        proof {
            assert(r@ =~= Seq::<(Seq<char>, Seq<u8>)>::empty());
        }
        r
    }

    /// The number of MIME names.
    pub fn len(&self) -> (r: usize)
        ensures
            r == self@.len(),
    {
        self.entries.len()
    }

    /// Whether there is no payload.
    pub fn is_empty(&self) -> (r: bool)
        ensures
            r == (self@.len() == 0),
    {
        self.entries.len() == 0
    }

    /// The name and payload at position `i`, in name order.
    pub fn entry(&self, i: usize) -> (r: (&String, &Vec<u8>))
        requires
            i < self@.len(),
        ensures
            r.0@ == self@[i as int].0,
            r.1@ == self@[i as int].1,
    {
        let e = &self.entries[i];
        (&e.0, &e.1)
    }

    /// The payload stored under `name`, if any.
    pub fn get(&self, name: &String) -> (r: Option<&Vec<u8>>)
        ensures
            r.is_some() == name_index(self@, name@).is_some(),
            r matches Some(v) ==> Some(v@) == payload_of(self@, name@),
    {
        let mut i: usize = 0;
        while i < self.entries.len()
            invariant
                i <= self@.len(),
                self@.len() == self.entries@.len(),
                forall|j: int| 0 <= j < i ==> self@[j].0 != name@,
            decreases self@.len() - i,
        {
            let e = &self.entries[i];
            proof {
                assert(self@[i as int] == entry_view(self.entries@[i as int]));
            }
            if e.0 == *name {
                proof {
                    assert(self@[i as int].0 == name@);
                    lemma_name_index(self@, name@, i as int);
                }
                return Some(&e.1);
            }
            i += 1;
        }
        None
    }

    /// Stores `bytes` under `name`, in its place in name order; replaces the
    /// payload that `name` had.
    pub fn insert(&mut self, name: String, bytes: Vec<u8>)
        requires
            old(self).wf(),
        ensures
            final(self).wf(),
            final(self)@ == with_entry(old(self)@, name@, bytes@),
    {
        let ghost s = self@;
        let ghost k = name_key(name@);
        let key = name.as_str().as_bytes();
        let mut i: usize = 0;
        let mut at_or_after = false;
        while i < self.entries.len() && !at_or_after
            invariant
                i <= s.len(),
                at_or_after ==> i < s.len() && !lex_lt(name_key(s[i as int].0), k),
                s == self@,
                s.len() == self.entries@.len(),
                names_sorted(s),
                key@ == k,
                k == name_key(name@),
                forall|j: int| 0 <= j < i ==> lex_lt(name_key(#[trigger] s[j].0), k),
            decreases s.len() - i + if at_or_after {
                0int
            } else {
                1int
            },
        {
            proof {
                assert(s[i as int] == entry_view(self.entries@[i as int]));
            }
            let c = compare_bytes(self.entries[i].0.as_str().as_bytes(), key);
            match c {
                std::cmp::Ordering::Less => {
                    i += 1;
                },
                _ => {
                    at_or_after = true;
                },
            }
        }
        proof {
            lemma_lex_irreflexive(k);
        }
        let equal = at_or_after && matches!(
            compare_bytes(self.entries[i].0.as_str().as_bytes(), key),
            std::cmp::Ordering::Equal
        );
        if equal {
            proof {
                assert(s[i as int] == entry_view(self.entries@[i as int]));
                assert(name_key(s[i as int].0) == k);
                assert(s[i as int].0 == name@) by {
                    vstd::utf8::encode_utf8_decode_utf8(s[i as int].0);
                    vstd::utf8::encode_utf8_decode_utf8(name@);
                }
                assert forall|j: int| 0 <= j < i implies s[j].0 != name@ by {
                    assert(lex_lt(name_key(s[j].0), k));
                }
                lemma_name_index(s, name@, i as int);
            }
            self.entries.set(i, (name, bytes));
            proof {
                assert(self@ =~= s.update(i as int, (name@, bytes@)));
            }
        } else {
            proof {
                if i < s.len() {
                    assert(s[i as int] == entry_view(self.entries@[i as int]));
                    lemma_lex_total(name_key(s[i as int].0), k);
                }
                assert forall|j: int| i <= j < s.len() implies lex_lt(k, name_key(#[trigger] s[j].0)) by {
                    if j > i {
                        lemma_lex_transitive(k, name_key(s[i as int].0), name_key(s[j].0));
                    }
                }
                if exists|c2: int| 0 <= c2 < s.len() && #[trigger] s[c2].0 == name@ {
                    let c2 = choose|c2: int| 0 <= c2 < s.len() && #[trigger] s[c2].0 == name@;
                    if c2 < i {
                        assert(lex_lt(name_key(s[c2].0), k));
                    } else {
                        assert(lex_lt(k, name_key(s[c2].0)));
                    }
                }
                assert forall|j: int| i <= j < s.len() implies !lex_lt(name_key(#[trigger] s[j].0), k) by {
                    lemma_lex_total(name_key(s[j].0), k);
                }
                lemma_insert_position(s, name@, i as int);
            }
            self.entries.insert(i, (name, bytes));
            proof {
                let t = s.insert(i as int, (name@, bytes@));
                assert(self@ =~= t);
                assert forall|a: int, b: int| 0 <= a < b < t.len() implies lex_lt(
                    name_key(t[a].0),
                    name_key(t[b].0),
                ) by {
                    if a < i && b == i {
                        assert(t[a] == s[a]);
                    } else if a == i {
                        assert(t[b] == s[b - 1]);
                    } else {
                        let a2 = if a < i { a } else { a - 1 };
                        let b2 = if b < i { b } else { b - 1 };
                        assert(t[a] == s[a2]);
                        assert(t[b] == s[b2]);
                    }
                }
            }
        }
    }
}

#[verifier::external_type_specification]
#[verifier::external_body]
pub struct ExEncodeError(bincode::error::EncodeError);

/// The bincode encoding (standard configuration) of a name-ordered sequence
/// of (name, payload) entries.
pub uninterp spec fn bincode_of_entries(d: Seq<(Seq<char>, Seq<u8>)>) -> Seq<u8>;

/// Relies on `bincode::encode_to_vec` with `config::standard()`: the bytes
/// depend on the entries alone, and as the entries are in name order they are
/// the bytes of the map from name to payload. Encoding into a vector cannot
/// fail: its writer always succeeds and the standard configuration sets no
/// size limit.
#[verifier::external_body]
pub(crate) fn encode_entries(d: &SelectionData) -> (r: Result<Vec<u8>, bincode::error::EncodeError>)
    ensures
        r is Ok,
        r matches Ok(b) ==> b@ == bincode_of_entries(d@),
{
    bincode::encode_to_vec(&d.entries, bincode::config::standard())
}

/// The 64-bit aHash of a byte string under a given seed, in this build.
pub uninterp spec fn ahash_with_seed(seed: u64, b: Seq<u8>) -> u64;

/// Relies on `ahash::RandomState::with_seed(seed).hash_one(bytes)`. With
/// ahash's random-seed features switched off its fixed keys are constants,
/// so within one build the value depends on the seed and the bytes alone
/// (builds for other targets or CPU features may hash differently).
#[verifier::external_body]
pub(crate) fn hash_bytes(seed: u64, b: &Vec<u8>) -> (r: u64)
    ensures
        r == ahash_with_seed(seed, b@),
{
    ahash::RandomState::with_seed(seed as usize).hash_one(b)
}

/// The fixed seed of content ids.
pub const HASH_SEED: u64 = 0xfd9aadcf54cc0f35;

/// The content id of a selection's payloads: the hash of their encoding.
pub open spec fn content_id_of(d: Seq<(Seq<char>, Seq<u8>)>) -> u64 {
    ahash_with_seed(HASH_SEED, bincode_of_entries(d))
}

/// Why a content id could not be computed.
#[derive(Debug, Clone, Copy, PartialEq, Eq)]
pub enum ContentIdError {
    /// The payloads could not be encoded.
    Encode,
}

/// The content id of `d`: equal payloads give equal ids.
pub fn content_id(d: &SelectionData) -> (r: Result<u64, ContentIdError>)
    ensures
        r == Ok::<u64, ContentIdError>(content_id_of(d@)),
{
    match encode_entries(d) {
        Ok(bytes) => Ok(hash_bytes(HASH_SEED, &bytes)),
        Err(_) => Err(ContentIdError::Encode),
    }
}

} // verus!
