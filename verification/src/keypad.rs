use vstd::prelude::*;

verus! {

/// The 16-key input device: one independently settable boolean per key,
/// indexed 0x0 through 0xF.
#[derive(Debug)]
pub struct Keypad {
    pub keys: Vec<bool>,
}

/// The lowest index at or after `k` whose key is down, if any.
pub open spec fn first_down_from(keys: Seq<bool>, k: int) -> Option<u8>
    decreases 16 - k when 0 <= k <= 16
{
    if k < 0 || k >= 16 {
        None
    } else if keys[k] {
        Some(k as u8)
    } else {
        first_down_from(keys, k + 1)
    }
}

/// The lowest-indexed key currently down, if any.
pub open spec fn first_key_down(keys: Seq<bool>) -> Option<u8> {
    first_down_from(keys, 0)
}

/// `first_key_down` answers `None` exactly when no key is down, and otherwise
/// names a key that is down with every lower-indexed key up.
pub proof fn lemma_first_key_down(keys: Seq<bool>)
    requires
        keys.len() == 16,
    ensures
        first_key_down(keys) matches Some(k)
            ==> k < 16 && keys[k as int] && (forall|j: int| 0 <= j < k ==> !keys[j]),
        first_key_down(keys) is None <==> (forall|j: int| 0 <= j < 16 ==> !keys[j]),
{
    lemma_first_down_from(keys, 0);
}

proof fn lemma_first_down_from(keys: Seq<bool>, k: int)
    requires
        keys.len() == 16,
        0 <= k <= 16,
    ensures
        first_down_from(keys, k) matches Some(d)
            ==> k <= d < 16 && keys[d as int] && (forall|j: int| k <= j < d ==> !keys[j]),
        first_down_from(keys, k) is None <==> (forall|j: int| k <= j < 16 ==> !keys[j]),
    decreases 16 - k,
{
    if k < 16 && !keys[k] {
        lemma_first_down_from(keys, k + 1);
    }
}

impl Keypad {
    /// All sixteen key slots exist.
    pub open spec fn wf(self) -> bool {
        self.keys@.len() == 16
    }

    /// A keypad with every key up.
    pub fn new() -> (kp: Keypad)
        ensures
            kp.wf(),
            forall|k: int| 0 <= k < 16 ==> !kp.keys@[k],
    {
        let mut keys: Vec<bool> = Vec::new();
        while keys.len() < 16
            invariant
                keys@.len() <= 16,
                forall|k: int| 0 <= k < keys@.len() ==> !keys@[k],
            decreases 16 - keys@.len(),
        {
            keys.push(false);
        }
        Keypad { keys }
    }

    /// Stores `down` at the given key slot. An index outside 0..=15 is a
    /// caller contract violation, so it is excluded here.
    pub fn set(&mut self, index: u8, down: bool)
        requires
            old(self).wf(),
            index < 16,
        ensures
            final(self).wf(),
            final(self).keys@ == old(self).keys@.update(index as int, down),
    {
        self.keys.set(index as usize, down);
    }

    /// Whether the given key is currently down.
    pub fn is_key_down(&self, index: u8) -> (down: bool)
        requires
            self.wf(),
            index < 16,
        ensures
            down == self.keys@[index as int],
    {
        self.keys[index as usize]
    }

    /// The lowest-indexed key currently down, or `None` when every key is up.
    pub fn get_pressed_key(&self) -> (pressed: Option<u8>)
        requires
            self.wf(),
        ensures
            pressed == first_key_down(self.keys@),
    {
        let mut k: usize = 0;
        while k < 16
            invariant
                self.wf(),
                0 <= k <= 16,
                first_key_down(self.keys@) == first_down_from(self.keys@, k as int),
            decreases 16 - k,
        {
            if self.keys[k] {
                return Some(k as u8);
            }
            k = k + 1;
        }
        None
    }
}

} // verus!
