//! Verified core of an LED board client: the frame buffer that the board
//! shows, the UDP packet that carries it, the texts that are drawn on it and
//! the choice of the next tram departures.

pub mod framebuffer;
pub mod packet;
pub mod text;
pub mod labels;
pub mod straba;
