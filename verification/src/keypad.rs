//! The 16-key input device: per-key pressed state and the "first pressed
//! key" query that the blocking key-wait instruction uses.

use vstd::prelude::*;

verus! {

/// Index of the lowest pressed key at or above position `k`, if any.
pub open spec fn first_pressed_from(keys: Seq<bool>, k: int) -> Option<u8>
    decreases 16 - k,
{
    if k < 0 || k >= 16 {
        None
    } else if keys[k] {
        Some(k as u8)
    } else {
        first_pressed_from(keys, k + 1)
    }
}

/// Index of the lowest pressed key, if any key is pressed at all.
pub open spec fn first_pressed(keys: Seq<bool>) -> Option<u8> {
    first_pressed_from(keys, 0)
}

/// No key of the 16 is currently pressed.
pub open spec fn no_key_pressed(keys: Seq<bool>) -> bool {
    forall|k: int| 0 <= k < 16 ==> !keys[k]
}

/// When every key at or above position `k` is released, the search from
/// `k` finds nothing.
pub proof fn lemma_first_pressed_none_from(keys: Seq<bool>, k: int)
    requires
        0 <= k <= 16,
        forall|j: int| k <= j < 16 ==> !keys[j],
    ensures
        first_pressed_from(keys, k) is None,
    decreases 16 - k,
{
    if k < 16 {
        lemma_first_pressed_none_from(keys, k + 1);
    }
}

/// When no key is pressed, there is no first pressed key.
pub proof fn lemma_first_pressed_none(keys: Seq<bool>)
    requires
        no_key_pressed(keys),
    ensures
        first_pressed(keys) is None,
{
    lemma_first_pressed_none_from(keys, 0);
}

/// The 16 independent key states, indexed by logical key 0x0..=0xF.
pub struct Keypad {
    pub keys: Vec<bool>,
}

impl Keypad {
    pub open spec fn wf(&self) -> bool {
        self.keys@.len() == 16
    }

    /// A keypad with every key released.
    pub fn new() -> (r: Keypad)
        ensures
            r.wf(),
            forall|k: int| 0 <= k < 16 ==> !r.keys@[k],
    {
        let mut keys: Vec<bool> = Vec::new();
        let mut k: usize = 0;
        while k < 16
            invariant
                keys@.len() == k,
                k <= 16,
                forall|j: int| 0 <= j < k ==> !keys@[j],
            decreases 16 - k,
        {
            keys.push(false);
            k = k + 1;
        }
        Keypad { keys }
    }

    /// Record that logical key `key` is now pressed or released.
    pub fn set_key(&mut self, key: u8, pressed: bool)
        requires
            old(self).wf(),
            key < 16,
        ensures
            final(self).wf(),
            final(self).keys@ == old(self).keys@.update(key as int, pressed),
    {
        self.keys.set(key as usize, pressed);
    }

    /// The lowest-numbered pressed key, or `None` when no key is pressed.
    pub fn wait_for_key(&self) -> (r: Option<u8>)
        requires
            self.wf(),
        ensures
            r == first_pressed(self.keys@),
            r is None <==> no_key_pressed(self.keys@),
            r matches Some(k) ==> k < 16 && self.keys@[k as int] && (forall|j: int|
                0 <= j < k ==> !self.keys@[j]),
    {
        let mut k: usize = 0;
        while k < 16
            invariant
                self.wf(),
                k <= 16,
                forall|j: int| 0 <= j < k ==> !self.keys@[j],
                first_pressed(self.keys@) == first_pressed_from(self.keys@, k as int),
            decreases 16 - k,
        {
            if self.keys[k] {
                return Some(k as u8);
            }
            k = k + 1;
        }
        None
    }
}

} // verus!
