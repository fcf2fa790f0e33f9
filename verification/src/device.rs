//! What the selectors need to know about a device.
use vstd::prelude::*;

verus! {

/// A device: its name, its banks of general-purpose RAM in bank order, the
/// RAM common to all banks, the number of bank bits in FSR, its interrupt
/// vectors and its flash size in words. Address ranges are inclusive.
#[derive(Debug)]
pub struct Device {
    pub name: String,
    pub ram_banks: Vec<(u16, u16)>,
    pub common_ram: Option<(u16, u16)>,
    pub fsr_bank_bits: u8,
    pub interrupt_vectors: Vec<u16>,
    pub flash_words: u32,
}

/// The first of `banks[i..]` that holds `addr`.
pub open spec fn bank_from(banks: Seq<(u16, u16)>, addr: u32, i: int) -> Option<usize>
    decreases banks.len() - i,
{
    if i < 0 || i >= banks.len() {
        None
    } else if banks[i].0 <= addr && addr <= banks[i].1 {
        Some(i as usize)
    } else {
        bank_from(banks, addr, i + 1)
    }
}

pub proof fn lemma_bank_from(banks: Seq<(u16, u16)>, addr: u32, i: int)
    requires
        0 <= i,
        banks.len() <= usize::MAX,
    ensures
        match bank_from(banks, addr, i) {
            Some(b) => i <= b < banks.len() && banks[b as int].0 <= addr <= banks[b as int].1,
            None => forall|j: int|
                i <= j < banks.len() ==> !(banks[j].0 <= addr && addr <= banks[j].1),
        },
    decreases banks.len() - i,
{
    if i < banks.len() && !(banks[i].0 <= addr && addr <= banks[i].1) {
        lemma_bank_from(banks, addr, i + 1);
    }
}

impl Device {
    /// The bank of a banked address; `None` for common RAM and registers.
    pub open spec fn bank(&self, addr: u32) -> Option<usize> {
        bank_from(self.ram_banks@, addr, 0)
    }

    /// The RAM region that holds `addr`: its bank, or the common RAM.
    pub open spec fn region(&self, addr: u32) -> Option<(u16, u16)> {
        match self.bank(addr) {
            Some(b) => Some(self.ram_banks@[b as int]),
            None => match self.common_ram {
                Some(c) => if c.0 <= addr && addr <= c.1 {
                    Some(c)
                } else {
                    None
                },
                None => None,
            },
        }
    }

    pub fn bank_of(&self, addr: u32) -> (r: Option<usize>)
        ensures
            r == self.bank(addr),
            r matches Some(b) ==> b < self.ram_banks@.len(),
    {
        let mut i: usize = 0;
        while i < self.ram_banks.len()
            invariant
                i <= self.ram_banks@.len(),
                self.bank(addr) == bank_from(self.ram_banks@, addr, i as int),
            decreases self.ram_banks@.len() - i,
        {
            if self.ram_banks[i].0 as u32 <= addr && addr <= self.ram_banks[i].1 as u32 {
                return Some(i);
            }
            i += 1;
        }
        None
    }

    pub fn region_for(&self, addr: u32) -> (r: Option<(u16, u16)>)
        ensures
            r == self.region(addr),
    {
        match self.bank_of(addr) {
            Some(b) => Some(self.ram_banks[b]),
            None => match self.common_ram {
                Some(c) => if c.0 as u32 <= addr && addr <= c.1 as u32 {
                    Some(c)
                } else {
                    None
                },
                None => None,
            },
        }
    }
}

} // verus!
