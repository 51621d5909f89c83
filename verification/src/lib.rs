//! Mod-manager logic for 3DMigoto/XXMI installs, verified with Verus.

pub mod text;
pub mod xxmi_config;
pub mod xxmi_config_laws;
pub mod xxmi_cleanup;
pub mod persisted_vars;
pub mod keybinds;
pub mod image_format;
pub mod paths;
pub mod seed;
pub mod elevation;
pub mod launcher;
pub mod reload;
pub mod toggle;
pub mod scanner;
pub mod images;
pub mod archive;
