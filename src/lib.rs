//! Binary value codec, type bundles, guest build planning and annotation
//! processing for guest modules that run in an isolated runtime.
//!
//! - [`codec`]: the wire format of described values, with its round trip.
//! - [`bundle`]: self-contained definition bundles of described types.
//! - [`compiler`]: how guest units are composed, named, cached and rebuilt.
//! - [`bridge`]: the host side of the memory exchange with a guest.
//! - [`annotate`], [`protocol`]: construct descriptions and their wire form.
//! - [`shared`], [`deploy`]: output that many guest runs contribute to.
//! - [`samples`]: sample host and guest types.

pub mod wire;
pub mod text;
pub mod codec;
pub mod annotate;
pub mod samples;
pub mod bundle;
pub mod compiler;
pub mod shared;
pub mod bridge;
pub mod protocol;
pub mod deploy;
