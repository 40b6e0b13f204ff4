//! Live map of the Dutch railway network on a small LED matrix.
pub mod accel;
pub mod bits;
pub mod clusters;
pub mod decompress;
pub mod display;
pub mod feed;
pub mod gzip;
pub mod input;
pub mod map_mode;
pub mod ns_api;
pub mod number_buf;
pub mod persist;
pub mod projection;
pub mod registry;
pub mod schema;
pub mod text;
pub mod time;
pub mod train;
pub mod train_doc;
pub mod train_map;
pub mod train_xml;
pub mod xml_doc;
pub mod xml_parser;
pub mod zmq;
