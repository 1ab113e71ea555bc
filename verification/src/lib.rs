//! Core of a motion-driven free-reed instrument: a relay that carries sensor
//! messages from a background producer to a frame-driven consumer, and a note
//! scheduler that turns key presses into note events.
//!
//! The continuous signal path (angle stream to loudness) and the discrete
//! event path (key presses to note on/off) are independent; this crate holds
//! the state and the rules of both paths' bookkeeping, stated as contracts
//! and proved. The floating-point filter arithmetic that turns motion into
//! loudness lives outside the verified core, around these types.

pub mod bellows;
pub mod keymap;
pub mod relay;

pub use bellows::BellowsAction;
pub use bellows::BellowsCore;
pub use keymap::ConfigError;
pub use keymap::KeyMap;
pub use keymap::PressedKeys;
pub use relay::SampleRelay;
pub use relay::SensorMsg;
pub use relay::SensorSample;
