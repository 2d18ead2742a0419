//! A user-space TCP protocol engine: sequence arithmetic, the segment wire
//! format, the socket table, the event bridge, the retransmission engine and
//! the connection state machine, without any packet I/O of its own.

pub mod event;
pub mod machine;
pub mod retransmit;
pub mod segment;
pub mod seqnum;
pub mod socket;
pub mod table;
pub mod tcp;
