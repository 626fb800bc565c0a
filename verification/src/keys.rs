use vstd::prelude::*;

verus! {

/// Direction of a nudge: push the focused window to a screen edge, or
/// undo the most recent nudge.
#[derive(Clone, Copy, Debug, PartialEq, Eq, Structural)]
pub enum Direction {
    Up,
    Left,
    Down,
    Right,
    Reset,
}

/// What a key binding does when it fires.
#[derive(Clone, Debug, PartialEq, Eq)]
pub enum Action {
    /// Destroy the focused window.
    DestroyFocused,
    /// Resize the focused window toward a screen edge, or undo.
    Nudge(Direction),
    /// Launch an external program through the configured shell with these
    /// arguments.
    Spawn(Vec<String>),
}

/// One entry of the static binding table: a keycode, the exact modifier
/// set that must be held, and the bound action.
#[derive(Clone, Debug)]
pub struct KeyBinding {
    pub keycode: u8,
    pub mods: u32,
    pub action: Action,
}

/// A bare key combination; used for the hard-coded quit chord.
#[derive(Clone, Copy, Debug, PartialEq, Eq, Structural)]
pub struct KeyCombo {
    pub keycode: u8,
    pub mods: u32,
}

/// Verdict on one key press: whether the event loop should stop, and the
/// table positions of every binding that fires, in table order.
#[derive(Clone, Debug)]
pub struct KeyOutcome {
    pub quit: bool,
    pub fired: Vec<usize>,
}

/// A binding fires only on exact equality of both keycode and modifier
/// set — not on set containment.
pub open spec fn binding_matches(b: KeyBinding, keycode: u8, mods: u32) -> bool {
    b.keycode == keycode && b.mods == mods
}

/// Positions, in order, of every binding among the first `n` whose
/// keycode and modifier set both equal the event's.
pub open spec fn matching_upto(bindings: Seq<KeyBinding>, keycode: u8, mods: u32, n: int) -> Seq<usize>
    decreases n,
{
    if n <= 0 {
        Seq::empty()
    } else {
        matching_upto(bindings, keycode, mods, n - 1)
            + if binding_matches(bindings[n - 1], keycode, mods) {
                seq![(n - 1) as usize]
            } else {
                Seq::empty()
            }
    }
}

/// Positions of every binding in the table that the key press fires.
pub open spec fn matching_indices(bindings: Seq<KeyBinding>, keycode: u8, mods: u32) -> Seq<usize> {
    matching_upto(bindings, keycode, mods, bindings.len() as int)
}

/// A position is listed exactly when it is in range and its binding
/// matches: no matching entry is skipped and no other fires.
pub proof fn lemma_matching_upto_complete(bindings: Seq<KeyBinding>, keycode: u8, mods: u32, n: int, i: usize)
    requires
        0 <= n <= bindings.len() <= usize::MAX,
    ensures
        matching_upto(bindings, keycode, mods, n).contains(i)
            <==> (i < n && binding_matches(bindings[i as int], keycode, mods)),
    decreases n,
{
    if n > 0 {
        lemma_matching_upto_complete(bindings, keycode, mods, n - 1, i);
        let prev = matching_upto(bindings, keycode, mods, n - 1);
        let whole = matching_upto(bindings, keycode, mods, n);
        if binding_matches(bindings[n - 1], keycode, mods) {
            assert(whole == prev + seq![(n - 1) as usize]);
            if i < n && binding_matches(bindings[i as int], keycode, mods) {
                if i == n - 1 {
                    assert(whole[whole.len() - 1] == (n - 1) as usize);
                    assert(whole.contains(i));
                } else {
                    let j = choose|j: int| 0 <= j < prev.len() && prev[j] == i;
                    assert(whole[j] == i);
                    assert(whole.contains(i));
                }
            }
            if whole.contains(i) {
                let j = choose|j: int| 0 <= j < whole.len() && whole[j] == i;
                if j < prev.len() {
                    assert(prev[j] == i);
                    assert(prev.contains(i));
                } else {
                    assert(i == (n - 1) as usize);
                    assert(i < n && binding_matches(bindings[i as int], keycode, mods));
                }
            }
        } else {
            assert(whole =~= prev);
        }
    }
}

/// Multi-dispatch: two bindings that share one key combination both fire
/// on a single matching key press; more generally, every matching entry's
/// position is reported.
pub proof fn lemma_multi_dispatch(bindings: Seq<KeyBinding>, keycode: u8, mods: u32, i: usize, j: usize)
    requires
        bindings.len() <= usize::MAX,
        i < bindings.len(),
        j < bindings.len(),
        binding_matches(bindings[i as int], keycode, mods),
        binding_matches(bindings[j as int], keycode, mods),
    ensures
        matching_indices(bindings, keycode, mods).contains(i),
        matching_indices(bindings, keycode, mods).contains(j),
{
    lemma_matching_upto_complete(bindings, keycode, mods, bindings.len() as int, i);
    lemma_matching_upto_complete(bindings, keycode, mods, bindings.len() as int, j);
}

/// Decide what one key press does: the hard-coded quit chord stops the
/// loop and fires nothing; any other press fires every binding whose
/// combination exactly equals the event's.
pub fn handle_key(bindings: &Vec<KeyBinding>, quit: KeyCombo, keycode: u8, mods: u32) -> (out: KeyOutcome)
    ensures
        out.quit == (keycode == quit.keycode && mods == quit.mods),
        out.quit ==> out.fired@ == Seq::<usize>::empty(),
        !out.quit ==> out.fired@ == matching_indices(bindings@, keycode, mods),
{
    if keycode == quit.keycode && mods == quit.mods {
        return KeyOutcome { quit: true, fired: Vec::new() };
    }
    let mut fired: Vec<usize> = Vec::new();
    let mut i: usize = 0;
    while i < bindings.len()
        invariant
            i <= bindings.len(),
            fired@ == matching_upto(bindings@, keycode, mods, i as int),
        decreases bindings.len() - i,
    {
        if bindings[i].keycode == keycode && bindings[i].mods == mods {
            fired.push(i);
        }
        i = i + 1;
    }
    KeyOutcome { quit: false, fired }
}

} // verus!
