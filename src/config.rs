use vstd::prelude::*;

verus! {

/// Window settings for a host that renders the store.
#[derive(Clone, Debug)]
pub struct Config {
    pub title: String,
    pub virtual_width: u32,
    pub virtual_height: u32,
    pub screen_width: u32,
    pub screen_height: u32,
}

/// A decoded image: `width` by `height` pixels, four bytes (RGBA) each.
#[derive(Clone, Debug)]
pub struct ImageAsset {
    pub width: u32,
    pub height: u32,
    pub data: Vec<u8>,
}

} // verus!
