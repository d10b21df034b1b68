use crate::config::{Binding, Modifier};
use crate::selection::copy_bytes;
use vstd::prelude::*;

verus! {

/// Which key a synthetic key event strikes.
#[derive(Debug, Clone, Copy, PartialEq, Eq, Structural)]
pub enum KeyRef {
    Modifier(Modifier),
    Keysym(u32),
}

/// A synthetic input event, or taking the selection, that pasting performs.
#[derive(Debug, Clone, Copy, PartialEq, Eq, Structural)]
pub enum InputAction {
    /// This engine's window becomes the selection owner.
    TakeOwnership,
    Key { press: bool, key: KeyRef },
    MovePointer { x: i16, y: i16 },
    Button { press: bool, button: u8 },
}

/// Key events for modifiers, all pressed or all released, in the given order.
pub open spec fn modifier_events(m: Seq<Modifier>, press: bool) -> Seq<InputAction> {
    m.map_values(|x: Modifier| InputAction::Key { press: press, key: KeyRef::Modifier(x) })
}

/// Striking one chord: modifiers down, key down and up, modifiers up in reverse.
pub open spec fn binding_events(b: Binding) -> Seq<InputAction> {
    modifier_events(b.modifiers@, true) + seq![
        InputAction::Key { press: true, key: KeyRef::Keysym(b.key) },
        InputAction::Key { press: false, key: KeyRef::Keysym(b.key) },
    ] + modifier_events(b.modifiers@.reverse(), false)
}

/// Striking chords one after the other.
pub open spec fn chord_events(bs: Seq<Binding>) -> Seq<InputAction>
    decreases bs.len(),
{
    if bs.len() == 0 {
        Seq::empty()
    } else {
        chord_events(bs.drop_last()) + binding_events(bs.last())
    }
}

/// Control+V.
pub open spec fn default_paste_events() -> Seq<InputAction> {
    seq![
        InputAction::Key { press: true, key: KeyRef::Modifier(Modifier::Control) },
        InputAction::Key { press: true, key: KeyRef::Keysym(0x76) },
        InputAction::Key { press: false, key: KeyRef::Keysym(0x76) },
        InputAction::Key { press: false, key: KeyRef::Modifier(Modifier::Control) },
    ]
}

/// The chords configured under the first entry named `n`, if any.
pub open spec fn keymap_lookup(km: Seq<(String, Vec<Binding>)>, n: Seq<char>) -> Option<Seq<Binding>> {
    if exists|i: int| 0 <= i < km.len() && #[trigger] km[i].0@ == n {
        Some(
            km[choose|i: int|
                0 <= i < km.len() && #[trigger] km[i].0@ == n && forall|j: int| 0 <= j < i ==> km[j].0@ != n].1@,
        )
    } else {
        None
    }
}

/// The key events that paste into a window of the given class.
pub open spec fn paste_key_events(km: Seq<(String, Vec<Binding>)>, class: Option<(String, String)>) -> Seq<
    InputAction,
> {
    match class {
        Some((instance, cls)) => match keymap_lookup(km, instance@) {
            Some(b) => chord_events(b),
            None => match keymap_lookup(km, cls@) {
                Some(b) => chord_events(b),
                None => default_paste_events(),
            },
        },
        None => default_paste_events(),
    }
}

/// A middle click at `at`, then the pointer back at `back`.
pub open spec fn middle_click(at: (i16, i16), back: (i16, i16)) -> Seq<InputAction> {
    seq![
        InputAction::MovePointer { x: at.0, y: at.1 },
        InputAction::Button { press: true, button: 2 },
        InputAction::Button { press: false, button: 2 },
        InputAction::MovePointer { x: back.0, y: back.1 },
    ]
}

pub proof fn lemma_first_keymap_index(km: Seq<(String, Vec<Binding>)>, n: Seq<char>, i: int)
    requires
        0 <= i < km.len(),
        km[i].0@ == n,
        forall|j: int| 0 <= j < i ==> km[j].0@ != n,
    ensures
        keymap_lookup(km, n) == Some(km[i].1@),
{
    assert(exists|k: int| 0 <= k < km.len() && #[trigger] km[k].0@ == n && forall|j: int| 0 <= j < k ==> km[j].0@ != n);
    let c = choose|k: int| 0 <= k < km.len() && #[trigger] km[k].0@ == n && forall|j: int| 0 <= j < k ==> km[j].0@ != n;
    if c < i {
        assert(km[c].0@ != n);
    } else if c > i {
        assert(km[i].0@ != n);
    }
}

pub proof fn lemma_no_keymap(km: Seq<(String, Vec<Binding>)>, n: Seq<char>)
    requires
        forall|j: int| 0 <= j < km.len() ==> km[j].0@ != n,
    ensures
        keymap_lookup(km, n) is None,
{
}

/// Appends the key events of striking `b`.
pub fn push_chord(out: &mut Vec<InputAction>, b: &Binding)
    ensures
        final(out)@ == old(out)@ + binding_events(*b),
{
    let ghost start = out@;
    let m = &b.modifiers;
    let mut i: usize = 0;
    while i < m.len()
        invariant
            i <= m@.len(),
            out@ == start + modifier_events(m@.subrange(0, i as int), true),
        decreases m@.len() - i,
    {
        out.push(InputAction::Key { press: true, key: KeyRef::Modifier(m[i]) });
        proof {
            assert(modifier_events(m@.subrange(0, i + 1), true) =~= modifier_events(m@.subrange(0, i as int), true).push(
                InputAction::Key { press: true, key: KeyRef::Modifier(m@[i as int]) },
            ));
            assert(out@ =~= start + modifier_events(m@.subrange(0, i + 1), true));
        }
        i += 1;
    }
    proof {
        assert(m@.subrange(0, m@.len() as int) =~= m@);
    }
    out.push(InputAction::Key { press: true, key: KeyRef::Keysym(b.key) });
    out.push(InputAction::Key { press: false, key: KeyRef::Keysym(b.key) });
    let ghost mid = out@;
    let mut j: usize = m.len();
    while j > 0
        invariant
            j <= m@.len(),
            out@ == mid + modifier_events(m@.reverse().subrange(0, m@.len() - j), false),
        decreases j,
    {
        j -= 1;
        out.push(InputAction::Key { press: false, key: KeyRef::Modifier(m[j]) });
        proof {
            let r = m@.reverse();
            assert(r[m@.len() - 1 - j] == m@[j as int]);
            assert(modifier_events(r.subrange(0, m@.len() - j), false) =~= modifier_events(
                r.subrange(0, m@.len() - j - 1),
                false,
            ).push(InputAction::Key { press: false, key: KeyRef::Modifier(m@[j as int]) }));
            assert(out@ =~= mid + modifier_events(r.subrange(0, m@.len() - j), false));
        }
    }
    proof {
        assert(m@.reverse().subrange(0, m@.len() as int) =~= m@.reverse());
        assert(out@ =~= start + binding_events(*b));
    }
}

/// The first NUL byte of `v` at or after `start`, or the end of `v`.
pub open spec fn nul_from(v: Seq<u8>, start: int) -> int
    decreases v.len() - start,
{
    if start >= v.len() {
        v.len() as int
    } else if v[start] == 0 {
        start
    } else {
        nul_from(v, start + 1)
    }
}

/// The instance and class names in a WM_CLASS value: the NUL-terminated
/// strings at its start (the second empty when missing).
pub open spec fn wm_class_parts(v: Seq<u8>) -> (Seq<u8>, Seq<u8>) {
    let a = nul_from(v, 0);
    if a < v.len() {
        (v.subrange(0, a), v.subrange(a + 1, nul_from(v, a + 1)))
    } else {
        (v, Seq::empty())
    }
}

proof fn lemma_nul_from_bounds(v: Seq<u8>, start: int)
    requires
        0 <= start,
    ensures
        start <= nul_from(v, start) || start > v.len(),
        nul_from(v, start) <= v.len(),
    decreases v.len() - start,
{
    if start < v.len() && v[start] != 0 {
        lemma_nul_from_bounds(v, start + 1);
    }
}

fn find_nul(v: &Vec<u8>, start: usize) -> (r: usize)
    requires
        start <= v@.len(),
    ensures
        r == nul_from(v@, start as int),
{
    let mut i = start;
    while i < v.len() && v[i] != 0
        invariant
            start <= i <= v@.len(),
            nul_from(v@, i as int) == nul_from(v@, start as int),
        decreases v@.len() - i,
    {
        i += 1;
    }
    i
}

/// Splits a WM_CLASS property value into the instance and class names;
/// `None` for an empty value.
pub fn split_wm_class(value: &Vec<u8>) -> (r: Option<(Vec<u8>, Vec<u8>)>)
    ensures
        value@.len() == 0 ==> r is None,
        value@.len() > 0 ==> r is Some && r->Some_0.0@ == wm_class_parts(value@).0 && r->Some_0.1@
            == wm_class_parts(value@).1,
{
    if value.len() == 0 {
        return None;
    }
    let a = find_nul(value, 0);
    proof {
        lemma_nul_from_bounds(value@, 0);
    }
    if a < value.len() {
        proof {
            lemma_nul_from_bounds(value@, a + 1);
        }
        let b = find_nul(value, a + 1);
        Some((copy_bytes(value, 0, a), copy_bytes(value, a + 1, b)))
    } else {
        proof {
            assert(value@.subrange(0, value@.len() as int) =~= value@);
        }
        let empty: Vec<u8> = Vec::new();
        proof {
            assert(empty@ =~= Seq::<u8>::empty());
        }
        Some((copy_bytes(value, 0, a), empty))
    }
}

} // verus!
