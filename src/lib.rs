//! Historical candlestick acquisition for a single exchange: the wire format of
//! candle responses, lossless number rendering, the retry and pagination
//! decisions, input validation and date normalization.

pub mod candle;
pub mod wire;
pub mod pagination;
pub mod exchange;
pub mod symbols;
pub mod dates;
pub mod about;
