//! The table of common keys, under one of which every title key is wrapped.

use vstd::prelude::*;

verus! {

/// The four common keys. The library holds no key of its own: whoever uses it
/// brings the table.
#[derive(Debug, Clone, Copy)]
pub struct CommonKeys {
    /// The common key of retail consoles.
    pub common: [u8; 16],
    /// The key of Korean consoles.
    pub korean: [u8; 16],
    /// The key of the Wii U's Wii mode.
    pub vwii: [u8; 16],
    /// The common key of development consoles.
    pub development: [u8; 16],
}

impl CommonKeys {
    /// The key that a ticket's key index selects: 1 the Korean key, 2 the
    /// vWii key, and every other index the common key, which is the
    /// development one for a development ticket.
    pub open spec fn spec_get(&self, index: u8, is_dev: bool) -> [u8; 16] {
        if index == 1 {
            self.korean
        } else if index == 2 {
            self.vwii
        } else if is_dev {
            self.development
        } else {
            self.common
        }
    }

    /// The key that a ticket's key index selects.
    pub fn get_common_key(&self, index: u8, is_dev: bool) -> (key: [u8; 16])
        ensures
            key == self.spec_get(index, is_dev),
    {
        if index == 1 {
            self.korean
        } else if index == 2 {
            self.vwii
        } else if is_dev {
            self.development
        } else {
            self.common
        }
    }
}

} // verus!
