//! The configuration: where sheets are fetched from, the schemas, and which schema each sheet
//! follows.
use vstd::prelude::*;

use crate::dsl::RawSchema;
use crate::strmap::StrMap;

verus! {

/// A sheet of the configuration: its display name and the name of its schema.
#[derive(Debug)]
pub struct Sheet {
    pub name: String,
    pub schema: String,
}

/// A sheet with its names taken by view.
pub struct SheetView {
    pub name: Seq<char>,
    pub schema: Seq<char>,
}

impl DeepView for Sheet {
    type V = SheetView;

    open spec fn deep_view(&self) -> SheetView {
        SheetView { name: self.name@, schema: self.schema@ }
    }
}

/// The whole configuration: the URL prefix of the sheets, the schemas by name, and the sheets by
/// identifier.
#[derive(Debug)]
pub struct Config {
    pub root_path: String,
    pub schemas: StrMap<RawSchema>,
    pub sheets: StrMap<Sheet>,
}

/// The kind of a downloaded media file, which names its directory.
#[derive(Debug, Clone, Copy, PartialEq, Eq, Structural)]
pub enum MediaType {
    Image,
    Video,
    Other,
}

} // verus!
