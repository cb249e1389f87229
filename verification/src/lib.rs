//! Verified core of a diphone-concatenation singing synthesizer: the
//! fixed-capacity segment queue, the text-to-phoneme front end, the
//! pronunciation dictionary parsers, the voice database and the integer
//! side of segment scheduling.

pub mod deque;
pub mod text;
pub mod mpron;
pub mod voice;
pub mod g2p;
pub mod phonetics;
pub mod schedule;
pub mod voices;
pub mod control;

pub use deque::Deque;
pub use g2p::G2P;
pub use voice::Voice;
