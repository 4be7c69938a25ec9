//! A minimal dataflow framework for event processing: a keyed, serializable
//! data container (`Frame`) with read-only ancestor sharing, a binary codec
//! and in-memory file for streams of frames, and a pipeline runner (`Tray`)
//! that drives frames through an ordered list of modules.

pub mod codec;
pub mod file;
pub mod frame;
pub mod module;
pub mod tray;

pub use codec::DecodeError;
pub use module::InfiniteSource;
pub use module::Module;
pub use module::SimpleModule;
pub use module::StartModule;
pub use tray::Tray;
pub use file::File;
pub use file::FileMode;
pub use frame::Frame;
pub use frame::FrameError;
pub use frame::Serializeable;
pub use frame::Value;
pub use frame::ValueModel;
