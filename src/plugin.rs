//! What a plugin declares about itself: its kind and its version string.
use vstd::prelude::*;

use vstd::string::StringSliceAdditionalSpecFns;

use crate::text::str_eq;

verus! {

/// The kinds of plugin the host loads.
#[derive(Debug, Clone, Copy, PartialEq, Eq)]
pub enum PluginType {
    Dissector,
    FileType,
    Codec,
    Epan,
    TapListener,
    DFilter,
}

/// The plugin kind a name stands for.
pub open spec fn plugin_type_named(name: Seq<char>) -> Option<PluginType> {
    if name == "Dissector"@ {
        Some(PluginType::Dissector)
    } else if name == "FileType"@ {
        Some(PluginType::FileType)
    } else if name == "Codec"@ {
        Some(PluginType::Codec)
    } else if name == "Epan"@ {
        Some(PluginType::Epan)
    } else if name == "TapListener"@ {
        Some(PluginType::TapListener)
    } else if name == "DFilter"@ {
        Some(PluginType::DFilter)
    } else {
        None
    }
}

/// The host constant that describes each kind.
pub open spec fn const_name_of(t: PluginType) -> Seq<char> {
    match t {
        PluginType::Dissector => "WS_PLUGIN_DESC_DISSECTOR"@,
        PluginType::FileType => "WS_PLUGIN_DESC_FILE_TYPE"@,
        PluginType::Codec => "WS_PLUGIN_DESC_CODEC"@,
        PluginType::Epan => "WS_PLUGIN_DESC_EPAN"@,
        PluginType::TapListener => "WS_PLUGIN_DESC_TAP_LISTENER"@,
        PluginType::DFilter => "WS_PLUGIN_DESC_DFILTER"@,
    }
}

impl PluginType {
    /// Reads a plugin kind by name; `None` for any other name.
    pub fn parse(name: &str) -> (r: Option<PluginType>)
        ensures
            r == plugin_type_named(name@),
    {
        if str_eq(name, "Dissector") {
            Some(PluginType::Dissector)
        } else if str_eq(name, "FileType") {
            Some(PluginType::FileType)
        } else if str_eq(name, "Codec") {
            Some(PluginType::Codec)
        } else if str_eq(name, "Epan") {
            Some(PluginType::Epan)
        } else if str_eq(name, "TapListener") {
            Some(PluginType::TapListener)
        } else if str_eq(name, "DFilter") {
            Some(PluginType::DFilter)
        } else {
            None
        }
    }

    /// The name of the host constant that describes this kind.
    pub fn to_const_ident(&self) -> (r: &'static str)
        ensures
            r@ == const_name_of(*self),
    {
        match self {
            PluginType::Dissector => "WS_PLUGIN_DESC_DISSECTOR",
            PluginType::FileType => "WS_PLUGIN_DESC_FILE_TYPE",
            PluginType::Codec => "WS_PLUGIN_DESC_CODEC",
            PluginType::Epan => "WS_PLUGIN_DESC_EPAN",
            PluginType::TapListener => "WS_PLUGIN_DESC_TAP_LISTENER",
            PluginType::DFilter => "WS_PLUGIN_DESC_DFILTER",
        }
    }

    /// The kind declared, or `Epan` where none is.
    pub fn or_default(t: Option<PluginType>) -> (r: PluginType)
        ensures
            r == match t {
                Some(t) => t,
                None => PluginType::Epan,
            },
    {
        match t {
            Some(t) => t,
            None => PluginType::Epan,
        }
    }
}

/// The version string as the host reads it: its UTF-8 bytes followed by a zero byte.
pub fn version_bytes(ver: &str) -> (r: Vec<u8>)
    ensures
        r@ == ver.spec_bytes().push(0u8),
{
    let mut bytes = ver.as_bytes_vec();
    bytes.push(0);
    bytes
}

} // verus!
