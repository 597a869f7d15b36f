pub mod board;
pub mod bounds;
pub mod crc;
pub mod point;
pub mod record;
pub mod round_trip;
pub mod stone;
pub mod storage;
pub mod text;
pub mod transport;
pub mod varint;

pub use board::{Board, BoardView, SetError};
pub use bounds::Bounds;
pub use point::Point;
pub use record::LoadRecordError;
pub use stone::Stone;
pub use storage::RawBoard;
