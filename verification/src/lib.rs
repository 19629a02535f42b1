//! Encoding and decoding of data by the contract ABI of Ethereum: the
//! types and their grammar, the head/tail codec of values, and the schema
//! of a contract with its functions and events.

pub mod abi;
pub mod codec;
pub mod conformance;
pub mod decode;
pub mod decoded_params;
pub mod encode;
pub mod errors;
pub mod hash;
pub mod layout;
pub mod logs;
pub mod naming;
pub mod params;
pub mod reparse;
pub mod rewrite;
pub mod round_trip;
pub mod schema;
pub mod text;
pub mod types;
pub mod values;
pub mod word;

pub use abi::{Abi, Constructor, Error, Event, Function, StateMutability};
pub use decoded_params::DecodedParams;
pub use errors::{AbiError, Limits, SchemaIssue};
pub use params::{Param, ParamEntry};
pub use schema::AbiEntry;
pub use types::Type;
pub use values::Value;
pub use word::{Address, Word};
