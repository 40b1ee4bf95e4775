//! A bounded single-producer / single-consumer byte queue that hands out
//! contiguous grants into its storage (a "bip buffer"), with an optional
//! length-prefixed frame layer on top.
use vstd::prelude::*;

pub mod book;
pub mod vusize;
pub mod buffer;
pub mod grant;
pub mod framed;

pub use book::{Book, GrantRange};
pub use buffer::{Buffer, Ring};
pub use framed::{FrameGrantRead, FrameGrantWrite};
pub use grant::{GrantRead, GrantWrite, SplitGrantRead};

verus! {

/// Why a grant could not be handed out.
#[derive(Debug, Clone, Copy, PartialEq, Eq, Structural)]
pub enum Error {
    /// A grant of the same kind is still outstanding.
    GrantInProgress,
    /// No contiguous region of the requested size is available right now.
    InsufficientSize,
}

} // verus!
