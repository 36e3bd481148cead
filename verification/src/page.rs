use vstd::prelude::*;

verus! {

/// Lifecycle flag of one physical NAND page. A page is created Free, becomes
/// Valid when programmed, Invalid when its logical address is remapped
/// elsewhere, and returns to Free only through the owning block's erase.
#[derive(PartialEq, Eq, Clone, Copy, Debug, Structural)]
pub enum PageState {
    Free,
    Valid,
    Invalid,
}

/// Smallest physical unit: a fixed-width payload plus its lifecycle flag.
/// The content is meaningful only while the state is Valid.
#[derive(PartialEq, Eq, Clone, Copy, Debug, Structural)]
pub struct Page {
    pub content: u32,
    pub state: PageState,
}

} // verus!
