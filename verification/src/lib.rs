//! Verified core of a hardware-toolbox launcher: the encrypted EDB/EDT
//! record and page formats, INI and text handling, tool catalogs, skin
//! packages, launch decisions and hardware report formatting.

pub mod catalog;
pub mod chars;
pub mod edb;
pub mod error;
pub mod gbk;
pub mod hardware;
pub mod ini;
pub mod ini_roundtrip;
pub mod launcher;
pub mod layout;
pub mod settings;
pub mod sidebar;
pub mod skin;
pub mod skin_archive;
pub mod text;

pub use catalog::{normalize_packaged_path, PackagedPath, ToolCatalog, ToolCategory, ToolEntry, ToolTarget};
pub use error::Error;
pub use hardware::{
    HardwareCategory, HardwareDevice, HardwareProperty, HardwareSection, HardwareSnapshot,
};
pub use ini::{IniDocument, IniEntry, IniSection};
pub use launcher::{ExecutableArchitecture, HostArchitecture, LaunchMethod, LaunchedTool};
pub use skin::{ImageFormat, SkinAssets, SkinManifest, SkinPackage};
pub use text::{decode_text, encode_text, TextEncoding};
