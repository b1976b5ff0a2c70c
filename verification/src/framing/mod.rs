//! Frame boundary detection and protocol parsing for RX and TX streams.

pub mod codecs;
pub mod config;
pub mod parsers;
pub mod decoder;
pub mod roundtrip;
pub mod streaming;

pub use config::{
    preset_rx_framing, preset_rx_parser, preset_tx_framing, Endianness, LineEnding, ParserConfig,
    ParserType, ProtocolPreset, RxFramingConfig, RxFramingMode, TxFramingConfig, TxFramingMode,
    TxLineEnding,
};
