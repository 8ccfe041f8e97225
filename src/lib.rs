use vstd::prelude::*;

pub mod engine;
pub mod framing;
pub mod line;

verus! {

/// Everything that can go wrong while starting, running or stopping a frame engine.
#[derive(Debug)]
pub enum SerialFrameError {
    /// The background unit could not be spawned.
    CouldNotStart,
    /// The stop signal could not be delivered.
    CouldNotSendStop,
    /// The transport reported an error other than a timeout.
    SerialportDisconnected,
    /// The background unit ended abnormally.
    SerialThreadPaniced,
    /// The consumer of the output channel has gone away.
    RecieverDropped,
    /// A frame could not be converted to the requested type; it holds the frame's bytes.
    FailedConversion(Vec<u8>),
}

} // verus!
