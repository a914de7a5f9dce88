pub mod heap;
pub mod key;
pub mod mask;
pub mod simd;
mod wide_masks;

pub use heap::ConfigurableSimdQuickHeap;
pub use key::Key;
pub use simd::{position_min, push_position, Avx2, Avx512, Neon, SimdElem};
