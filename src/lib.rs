//! Block-device inventory as reported by `lsblk --json`: a typed device tree,
//! the normalizers that build it from the loosely shaped document, and
//! queries on it.
pub mod decode;
pub mod device;
pub mod encode;
pub mod json;
pub mod kind;
pub mod mountpoint;
pub mod size;
pub mod text;

pub use decode::{Field, ParseError};
pub use device::{BlockDevice, BlockDevices};
pub use json::{JsonValue, Member};
pub use kind::DeviceKind;
pub use mountpoint::normalize_mountpoints;
pub use size::{size_from_number, size_from_text};
