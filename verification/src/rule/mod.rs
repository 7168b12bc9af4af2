//! The rules, one module each.
pub mod md004;
pub mod md007;
pub mod md030;
pub mod md034;
pub mod md038;
pub mod md039;
