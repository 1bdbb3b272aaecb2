//! Engine behind an analog keyboard plugin: it recognises supported
//! keyboards, decodes their analog reports and answers queries over all
//! keyboards that are currently attached.
//!
//! Everything here is sequential state and pure computation. The caller owns
//! the transport, the threads and the locks, and hands this library plain
//! values: descriptors, report bytes and the outcome of each read.
//!
//! Intensities are exact fractions, counted in units of `1 / FULL_SCALE`;
//! see the module `intensity`.
pub mod aggregate;
pub mod hardware;
pub mod intensity;
pub mod plugin;
pub mod readings;
pub mod registry;
pub mod report;
pub mod scanner;
pub mod session;

pub use aggregate::{read_merged, read_strongest};
pub use hardware::{
    identity_of, known_profiles, DecodingProfile, HardwareSignature, RawDescriptor,
};
pub use intensity::{scale, Gain, FULL_SCALE};
pub use plugin::{
    DeviceEvent, DeviceEventKind, InitOutcome, Notification, WootingPlugin, PLUGIN_NAME,
    WILDCARD_DEVICE,
};
pub use readings::{AnalogBuffer, AnalogEntry};
pub use registry::DeviceRegistry;
pub use report::decode;
pub use scanner::{next_candidate, ScanCursor};
pub use session::{
    AnalogError, DeviceDescriptor, DeviceSession, LoopAction, ANALOG_BUFFER_SIZE,
};
