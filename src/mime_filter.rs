use crate::utils::{
    bytes_eq_ignore_ascii_case, image_mime_score, image_rank, is_image_mime, is_image_name,
    plaintext_mime_score, plaintext_rank,
};
use vstd::prelude::*;
use vstd::string::StringSliceAdditionalSpecFns;
use vstd::utf8::encode_utf8;

verus! {

/// A selection target offered by its owner: the atom and its MIME name.
pub type MimeTarget = (u32, String);

/// The MIME name that password managers put on a selection they own.
pub const PASSWORD_MANAGER_HINT: &'static str = "x-kde-passwordManagerHint";

/// The UTF-8 bytes of a string value.
pub open spec fn string_bytes(s: String) -> Seq<u8> {
    encode_utf8(s@)
}

/// A plain-text target.
pub open spec fn is_plain(e: MimeTarget) -> bool {
    plaintext_rank(string_bytes(e.1)) is Some
}

/// The rank of a plain-text target.
pub open spec fn plain_rank(e: MimeTarget) -> nat {
    plaintext_rank(string_bytes(e.1))->Some_0
}

/// An image target (one that is not plain text).
pub open spec fn is_image(e: MimeTarget) -> bool {
    !is_plain(e) && is_image_name(string_bytes(e.1))
}

/// The password-manager marker.
pub open spec fn is_password_hint(e: MimeTarget) -> bool {
    string_bytes(e.1) == PASSWORD_MANAGER_HINT.spec_bytes()
}

/// A target that passes through unchanged: neither the marker, nor plain text, nor image.
pub open spec fn is_other(e: MimeTarget) -> bool {
    !is_plain(e) && !is_image(e) && !is_password_hint(e)
}

/// The targets of `s` that pass through unchanged, in their order.
pub open spec fn other_targets(s: Seq<MimeTarget>) -> Seq<MimeTarget>
    decreases s.len(),
{
    if s.len() == 0 {
        Seq::empty()
    } else if is_other(s.last()) {
        other_targets(s.drop_last()).push(s.last())
    } else {
        other_targets(s.drop_last())
    }
}

/// Plain-text target `a` is preferred to `b`: a higher rank, or the same
/// rank and a lower atom.
pub open spec fn plain_preferred(a: MimeTarget, b: MimeTarget) -> bool {
    plain_rank(a) > plain_rank(b) || (plain_rank(a) == plain_rank(b) && a.0 < b.0)
}

/// The rank of an image target.
pub open spec fn image_rank_of(e: MimeTarget) -> nat {
    image_rank(string_bytes(e.1))
}

/// Image target `a` is preferred to `b`: a higher rank, or the same rank and
/// a lower atom.
pub open spec fn image_preferred(a: MimeTarget, b: MimeTarget) -> bool {
    image_rank_of(a) > image_rank_of(b) || (image_rank_of(a) == image_rank_of(b) && a.0 < b.0)
}

/// Entry `k` is the preferred plain-text target among the first `n`: none is
/// preferred to it, and it is preferred to every earlier one (so among
/// targets of equal rank and atom the first offered counts).
pub open spec fn is_best_plain(s: Seq<MimeTarget>, k: int, n: int) -> bool {
    &&& 0 <= k < n <= s.len()
    &&& is_plain(s[k])
    &&& forall|j: int| 0 <= j < n && is_plain(#[trigger] s[j]) ==> !plain_preferred(s[j], s[k])
    &&& forall|j: int| 0 <= j < k && is_plain(#[trigger] s[j]) ==> plain_preferred(s[k], s[j])
}

/// Entry `k` is the preferred image target among the first `n` (see `is_best_plain`).
pub open spec fn is_best_image(s: Seq<MimeTarget>, k: int, n: int) -> bool {
    &&& 0 <= k < n <= s.len()
    &&& is_image(s[k])
    &&& forall|j: int| 0 <= j < n && is_image(#[trigger] s[j]) ==> !image_preferred(s[j], s[k])
    &&& forall|j: int| 0 <= j < k && is_image(#[trigger] s[j]) ==> image_preferred(s[k], s[j])
}

/// The best plain-text target, as a sequence of none or one.
pub open spec fn best_plain(s: Seq<MimeTarget>) -> Seq<MimeTarget> {
    if exists|k: int| is_best_plain(s, k, s.len() as int) {
        seq![s[choose|k: int| is_best_plain(s, k, s.len() as int)]]
    } else {
        Seq::empty()
    }
}

/// The best image target, as a sequence of none or one.
pub open spec fn best_image(s: Seq<MimeTarget>) -> Seq<MimeTarget> {
    if exists|k: int| is_best_image(s, k, s.len() as int) {
        seq![s[choose|k: int| is_best_image(s, k, s.len() as int)]]
    } else {
        Seq::empty()
    }
}

/// Some target of `s` is the password-manager marker.
pub open spec fn has_password_hint(s: Seq<MimeTarget>) -> bool {
    exists|i: int| 0 <= i < s.len() && is_password_hint(#[trigger] s[i])
}

/// The targets worth capturing: nothing at all when the password-manager
/// marker is offered; otherwise every other target in its order, then the
/// best plain-text target, then the best image target.
pub open spec fn filtered_targets(s: Seq<MimeTarget>) -> Seq<MimeTarget> {
    if has_password_hint(s) {
        Seq::empty()
    } else {
        other_targets(s) + best_plain(s) + best_image(s)
    }
}

proof fn lemma_best_plain_unique(s: Seq<MimeTarget>, a: int, b: int, n: int)
    requires
        is_best_plain(s, a, n),
        is_best_plain(s, b, n),
    ensures
        a == b,
{
    if a < b {
        assert(is_plain(s[a]));
    } else if b < a {
        assert(is_plain(s[b]));
    }
}

proof fn lemma_best_image_unique(s: Seq<MimeTarget>, a: int, b: int, n: int)
    requires
        is_best_image(s, a, n),
        is_best_image(s, b, n),
    ensures
        a == b,
{
    if a < b {
        assert(is_image(s[a]));
    } else if b < a {
        assert(is_image(s[b]));
    }
}

fn is_hint(name: &String) -> (r: bool)
    ensures
        r == (string_bytes(*name) == PASSWORD_MANAGER_HINT.spec_bytes()),
{
    let a = name.as_str().as_bytes();
    let b = PASSWORD_MANAGER_HINT.as_bytes();
    if a.len() != b.len() {
        return false;
    }
    let mut i: usize = 0;
    while i < a.len()
        invariant
            a@.len() == b@.len(),
            a@ == string_bytes(*name),
            b@ == PASSWORD_MANAGER_HINT.spec_bytes(),
            i <= a@.len(),
            forall|j: int| 0 <= j < i ==> a@[j] == b@[j],
        decreases a@.len() - i,
    {
        if a[i] != b[i] {
            assert(a@[i as int] != b@[i as int]);
            return false;
        }
        i += 1;
    }
    proof {
        assert(a@ =~= b@);
    }
    true
}

/// Chooses the targets to capture from those that a selection owner offers:
/// at most one plain-text target (the best ranked, the first among equals),
/// at most one image target (likewise), and every other target; none at all
/// when the password-manager marker is among them.
pub fn filter_mimes(mimes: Vec<MimeTarget>) -> (r: Vec<MimeTarget>)
    ensures
        r@ == filtered_targets(mimes@),
        has_password_hint(mimes@) ==> r@.len() == 0,
{
    let ghost s = mimes@;
    let mut out: Vec<MimeTarget> = Vec::new();
    let mut plain: Option<usize> = None;
    let mut plain_score: usize = 0;
    let mut plain_atom: u32 = 0;
    let mut image: Option<usize> = None;
    let mut image_score: usize = 0;
    let mut image_atom: u32 = 0;
    let mut i: usize = 0;
    while i < mimes.len()
        invariant
            s == mimes@,
            i <= s.len(),
            out@ == other_targets(s.subrange(0, i as int)),
            forall|j: int| 0 <= j < i ==> !is_password_hint(#[trigger] s[j]),
            plain is None ==> forall|j: int| 0 <= j < i ==> !is_plain(#[trigger] s[j]),
            plain matches Some(k) ==> is_best_plain(s, k as int, i as int) && plain_score == plain_rank(s[k as int])
                && plain_atom == s[k as int].0,
            image is None ==> forall|j: int| 0 <= j < i ==> !is_image(#[trigger] s[j]),
            image matches Some(k) ==> image_atom == s[k as int].0 && is_best_image(s, k as int, i as int) && image_score == image_rank(
                string_bytes(s[k as int].1),
            ),
        decreases s.len() - i,
    {
        let name = &mimes[i].1;
        let ghost e = s[i as int];
        proof {
            assert(s.subrange(0, i + 1).drop_last() =~= s.subrange(0, i as int));
            assert(s.subrange(0, i + 1).last() == e);
        }
        if is_hint(name) {
            proof {
                assert(has_password_hint(s));
            }
            return Vec::new();
        }
        match plaintext_mime_score(name.as_str()) {
            Some(score) => {
                let atom = mimes[i].0;
                if plain.is_none() || score > plain_score || (score == plain_score && atom < plain_atom) {
                    plain = Some(i);
                    plain_score = score;
                    plain_atom = atom;
                }
            },
            None => {
                if is_image_mime(name.as_str()) {
                    let score = image_mime_score(name.as_str());
                    let atom = mimes[i].0;
                    if image.is_none() || score > image_score || (score == image_score && atom < image_atom) {
                        image = Some(i);
                        image_score = score;
                        image_atom = atom;
                    }
                } else {
                    out.push((mimes[i].0, name.clone()));
                }
            },
        }
        i += 1;
    }
    proof {
        assert(s.subrange(0, s.len() as int) =~= s);
        assert(!has_password_hint(s));
    }
    if let Some(k) = plain {
        proof {
            let c = choose|k2: int| is_best_plain(s, k2, s.len() as int);
            lemma_best_plain_unique(s, c, k as int, s.len() as int);
        }
        out.push((mimes[k].0, mimes[k].1.clone()));
    } else {
        proof {
            if exists|k2: int| is_best_plain(s, k2, s.len() as int) {
                let c = choose|k2: int| is_best_plain(s, k2, s.len() as int);
                assert(is_plain(s[c]));
            }
        }
    }
    if let Some(k) = image {
        proof {
            let c = choose|k2: int| is_best_image(s, k2, s.len() as int);
            lemma_best_image_unique(s, c, k as int, s.len() as int);
        }
        out.push((mimes[k].0, mimes[k].1.clone()));
    } else {
        proof {
            if exists|k2: int| is_best_image(s, k2, s.len() as int) {
                let c = choose|k2: int| is_best_image(s, k2, s.len() as int);
                assert(is_image(s[c]));
            }
        }
    }
    proof {
        assert(out@ =~= other_targets(s) + best_plain(s) + best_image(s));
    }
    out
}

/// No two targets of `s` share an atom.
pub open spec fn atoms_unique(s: Seq<MimeTarget>) -> bool {
    forall|i: int, j: int| 0 <= i < j < s.len() ==> s[i].0 != s[j].0
}

proof fn lemma_push_contains<T>(p: Seq<T>, x: T, e: T)
    ensures
        p.push(x).contains(e) <==> (p.contains(e) || x == e),
{
    if p.contains(e) {
        let i = choose|i: int| 0 <= i < p.len() && p[i] == e;
        assert(p.push(x)[i] == e);
    }
    if x == e {
        assert(p.push(x)[p.len() as int] == e);
    }
    if p.push(x).contains(e) && x != e {
        let i = choose|i: int| 0 <= i < p.len() + 1 && p.push(x)[i] == e;
        assert(p[i] == e);
    }
}

proof fn lemma_other_targets_contains(s: Seq<MimeTarget>, e: MimeTarget)
    ensures
        other_targets(s).contains(e) <==> s.contains(e) && is_other(e),
    decreases s.len(),
{
    if s.len() > 0 {
        lemma_other_targets_contains(s.drop_last(), e);
        lemma_push_contains(other_targets(s.drop_last()), s.last(), e);
        assert(s =~= s.drop_last().push(s.last()));
        lemma_push_contains(s.drop_last(), s.last(), e);
    } else {
        assert(!s.contains(e));
        assert(!other_targets(s).contains(e));
    }
}

proof fn lemma_best_plain_carries(s1: Seq<MimeTarget>, s2: Seq<MimeTarget>, k1: int)
    requires
        atoms_unique(s2),
        is_best_plain(s1, k1, s1.len() as int),
        forall|e: MimeTarget| s1.contains(e) <==> s2.contains(e),
    ensures
        exists|k2: int| is_best_plain(s2, k2, s2.len() as int) && s2[k2] == s1[k1],
{
    let e = s1[k1];
    assert(s1.contains(e));
    let k2 = choose|k: int| 0 <= k < s2.len() && s2[k] == e;
    assert forall|j: int| 0 <= j < s2.len() && is_plain(#[trigger] s2[j]) implies !plain_preferred(s2[j], e) by {
        assert(s2.contains(s2[j]));
        let j1 = choose|j1: int| 0 <= j1 < s1.len() && s1[j1] == s2[j];
        assert(is_plain(s1[j1]));
    }
    assert forall|j: int| 0 <= j < k2 && is_plain(#[trigger] s2[j]) implies plain_preferred(e, s2[j]) by {
        assert(!plain_preferred(s2[j], e));
        assert(s2[j].0 != s2[k2].0);
    }
    assert(is_best_plain(s2, k2, s2.len() as int));
}

proof fn lemma_best_image_carries(s1: Seq<MimeTarget>, s2: Seq<MimeTarget>, k1: int)
    requires
        atoms_unique(s2),
        is_best_image(s1, k1, s1.len() as int),
        forall|e: MimeTarget| s1.contains(e) <==> s2.contains(e),
    ensures
        exists|k2: int| is_best_image(s2, k2, s2.len() as int) && s2[k2] == s1[k1],
{
    let e = s1[k1];
    assert(s1.contains(e));
    let k2 = choose|k: int| 0 <= k < s2.len() && s2[k] == e;
    assert forall|j: int| 0 <= j < s2.len() && is_image(#[trigger] s2[j]) implies !image_preferred(s2[j], e) by {
        assert(s2.contains(s2[j]));
        let j1 = choose|j1: int| 0 <= j1 < s1.len() && s1[j1] == s2[j];
        assert(is_image(s1[j1]));
    }
    assert forall|j: int| 0 <= j < k2 && is_image(#[trigger] s2[j]) implies image_preferred(e, s2[j]) by {
        assert(!image_preferred(s2[j], e));
        assert(s2[j].0 != s2[k2].0);
    }
    assert(is_best_image(s2, k2, s2.len() as int));
}

proof fn lemma_best_plain_same(s1: Seq<MimeTarget>, s2: Seq<MimeTarget>)
    requires
        atoms_unique(s1),
        atoms_unique(s2),
        forall|e: MimeTarget| s1.contains(e) <==> s2.contains(e),
    ensures
        best_plain(s1) == best_plain(s2),
{
    if exists|k: int| is_best_plain(s1, k, s1.len() as int) {
        let c1 = choose|k: int| is_best_plain(s1, k, s1.len() as int);
        lemma_best_plain_carries(s1, s2, c1);
        let k2 = choose|k2: int| is_best_plain(s2, k2, s2.len() as int) && s2[k2] == s1[c1];
        let c2 = choose|k: int| is_best_plain(s2, k, s2.len() as int);
        lemma_best_plain_unique(s2, c2, k2, s2.len() as int);
    } else if exists|k: int| is_best_plain(s2, k, s2.len() as int) {
        let c2 = choose|k: int| is_best_plain(s2, k, s2.len() as int);
        lemma_best_plain_carries(s2, s1, c2);
    }
}

proof fn lemma_best_image_same(s1: Seq<MimeTarget>, s2: Seq<MimeTarget>)
    requires
        atoms_unique(s1),
        atoms_unique(s2),
        forall|e: MimeTarget| s1.contains(e) <==> s2.contains(e),
    ensures
        best_image(s1) == best_image(s2),
{
    if exists|k: int| is_best_image(s1, k, s1.len() as int) {
        let c1 = choose|k: int| is_best_image(s1, k, s1.len() as int);
        lemma_best_image_carries(s1, s2, c1);
        let k2 = choose|k2: int| is_best_image(s2, k2, s2.len() as int) && s2[k2] == s1[c1];
        let c2 = choose|k: int| is_best_image(s2, k, s2.len() as int);
        lemma_best_image_unique(s2, c2, k2, s2.len() as int);
    } else if exists|k: int| is_best_image(s2, k, s2.len() as int) {
        let c2 = choose|k: int| is_best_image(s2, k, s2.len() as int);
        lemma_best_image_carries(s2, s1, c2);
    }
}

/// Filtering depends on the set of offered targets alone: two offers of the
/// same targets (atoms distinct), in any order, keep the same targets; the
/// plain-text and image targets kept are the very same ones.
pub proof fn lemma_filter_depends_on_set(s1: Seq<MimeTarget>, s2: Seq<MimeTarget>)
    requires
        atoms_unique(s1),
        atoms_unique(s2),
        forall|e: MimeTarget| s1.contains(e) <==> s2.contains(e),
    ensures
        forall|e: MimeTarget| filtered_targets(s1).contains(e) <==> filtered_targets(s2).contains(e),
        best_plain(s1) == best_plain(s2),
        best_image(s1) == best_image(s2),
{
    lemma_best_plain_same(s1, s2);
    lemma_best_image_same(s1, s2);
    assert(has_password_hint(s1) <==> has_password_hint(s2)) by {
        if has_password_hint(s1) {
            let i = choose|i: int| 0 <= i < s1.len() && is_password_hint(#[trigger] s1[i]);
            assert(s1.contains(s1[i]));
            let j = choose|j: int| 0 <= j < s2.len() && s2[j] == s1[i];
            assert(is_password_hint(s2[j]));
        }
        if has_password_hint(s2) {
            let i = choose|i: int| 0 <= i < s2.len() && is_password_hint(#[trigger] s2[i]);
            assert(s2.contains(s2[i]));
            let j = choose|j: int| 0 <= j < s1.len() && s1[j] == s2[i];
            assert(is_password_hint(s1[j]));
        }
    }
    assert forall|e: MimeTarget| filtered_targets(s1).contains(e) <==> filtered_targets(s2).contains(e) by {
        lemma_other_targets_contains(s1, e);
        lemma_other_targets_contains(s2, e);
        lemma_concat_contains(other_targets(s1), best_plain(s1) + best_image(s1), e);
        lemma_concat_contains(other_targets(s2), best_plain(s2) + best_image(s2), e);
        assert(other_targets(s1) + best_plain(s1) + best_image(s1) =~= other_targets(s1) + (best_plain(s1)
            + best_image(s1)));
        assert(other_targets(s2) + best_plain(s2) + best_image(s2) =~= other_targets(s2) + (best_plain(s2)
            + best_image(s2)));
        if !has_password_hint(s1) {
            assert(filtered_targets(s1) == other_targets(s1) + (best_plain(s1) + best_image(s1)));
            assert(filtered_targets(s2) == other_targets(s2) + (best_plain(s2) + best_image(s2)));
        } else {
            assert(!filtered_targets(s1).contains(e));
            assert(!filtered_targets(s2).contains(e));
        }
    }
}

proof fn lemma_concat_contains<T>(a: Seq<T>, b: Seq<T>, e: T)
    ensures
        (a + b).contains(e) <==> a.contains(e) || b.contains(e),
{
    if a.contains(e) {
        let i = choose|i: int| 0 <= i < a.len() && a[i] == e;
        assert((a + b)[i] == e);
    }
    if b.contains(e) {
        let i = choose|i: int| 0 <= i < b.len() && b[i] == e;
        assert((a + b)[a.len() + i] == e);
    }
    if (a + b).contains(e) {
        let i = choose|i: int| 0 <= i < a.len() + b.len() && (a + b)[i] == e;
        if i < a.len() {
            assert(a[i] == e);
        } else {
            assert(b[i - a.len()] == e);
        }
    }
}

} // verus!
