//! Parsing of plain `http://` addresses into host, port, path and search part.
pub mod url;
