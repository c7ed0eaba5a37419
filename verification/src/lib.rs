//! FastProto's codec: the protobuf wire format, the parser for message
//! descriptors, and the encoder and decoder that walk them.
pub mod wire;
pub mod wire_laws;
pub mod number_laws;
pub mod descriptor;
pub mod wellknown;
pub mod time_laws;
pub mod text;
pub mod value;
pub mod entries;
pub mod scalar_laws;
pub mod parse;
pub mod parse_laws;
pub mod descriptor_laws;
pub mod message;
pub mod schema_laws;
pub mod encode;
pub mod decode;
pub mod arrival;
pub mod encoding_laws;
pub mod codec_laws;
pub mod decode_laws;
pub mod arrival_laws;
pub mod model_laws;
pub mod decoding_laws;
