use vstd::prelude::*;

verus! {

/// The player's block choice: the ids to cycle through and the one selected.
#[derive(Debug, Default)]
pub struct BlockPicker {
    pub block_order: Vec<String>,
    pub index: usize,
}

impl BlockPicker {
    /// Moves the selection one step, forward or back, wrapping around at either end.
    pub fn scroll(&mut self, forward: bool)
        requires
            old(self).index < old(self).block_order@.len(),
        ensures
            final(self).block_order == old(self).block_order,
            final(self).index < final(self).block_order@.len(),
            forward ==> final(self).index == (old(self).index + 1) % (old(self).block_order@.len() as int),
            !forward ==> final(self).index == (old(self).index + old(self).block_order@.len() - 1) % (
            old(self).block_order@.len() as int),
    {
        let n = self.block_order.len();
        if forward {
            self.index = if self.index == n - 1 { 0 } else { self.index + 1 };
        } else {
            self.index = if self.index == 0 { n - 1 } else { self.index - 1 };
        }
        proof {
            let old_i = old(self).index as int;
            let ni = n as int;
            if forward {
                if old_i == ni - 1 {
                    vstd::arithmetic::div_mod::lemma_mod_self_0(ni);
                } else {
                    vstd::arithmetic::div_mod::lemma_small_mod((old_i + 1) as nat, ni as nat);
                }
            } else {
                if old_i == 0 {
                    vstd::arithmetic::div_mod::lemma_small_mod((ni - 1) as nat, ni as nat);
                } else {
                    vstd::arithmetic::div_mod::lemma_mod_adds(old_i - 1, ni, ni);
                    vstd::arithmetic::div_mod::lemma_small_mod((old_i - 1) as nat, ni as nat);
                    vstd::arithmetic::div_mod::lemma_mod_self_0(ni);
                }
            }
        }
    }
}

} // verus!
