//! Parser and serializer for the folded, nested `BEGIN:<TAG>`/`END:<TAG>`
//! property-list grammar shared by iCalendar and vCard, together with a thin
//! typed vCard accessor layer.

pub mod component;
pub mod error;
pub mod parser;
pub mod property;
pub mod roundtrip;
pub mod strutil;
pub mod vcard;

pub use component::Component;
pub use component::parse_component;
pub use component::write_component;
pub use property::Property;
pub use property::escape_chars;
pub use property::unescape_chars;
