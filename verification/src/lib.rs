//! XDG base-directory resolution, and lookup of native libraries bundled with an install.
//!
//! Data and bundled libraries are located relative to the running executable, so that the same
//! binary works on an FHS distribution and on one where nothing lives under `/usr`.
//!
//! Every lookup is a function of an [`Environment`], which the caller captures from the process,
//! and, where the file system decides, of a test that the caller passes in. Paths and variables
//! are byte strings. Paths, and lists of paths in a variable, have Unix syntax: `/` separates the
//! components of a path and `:` the paths of a list. Drive prefixes, `\` and `;` are ordinary
//! bytes of a name.
//!
//! Every list is returned most specific first.
pub mod bytes;
pub mod cef;
pub mod environment;
pub mod laws;
pub mod library;
pub mod path;
pub mod pathbuf;
pub mod prefix;
pub mod probe;
pub mod search;
pub mod xdg;

pub use cef::{
    ensure_cef_path, find_cef_dir, CefLocation, CefSearch, CEF_FHS_DIR, CEF_LIB, CEF_LIB_MACOS,
    CEF_LIB_WINDOWS, CEF_PATH_ENV,
};
pub use environment::{Environment, Var};
pub use library::{find_library, library_candidates, LIB_SUBDIRS};
pub use pathbuf::PathBuf;
pub use prefix::prefix_of;
pub use search::{home_dir, push_unique, resolve};
pub use xdg::{
    config_dirs, config_home, config_subdirs, data_dirs, data_home, data_subdirs, install_prefix,
    system_config_dirs, system_data_dirs, system_data_subdirs, CONFIG_DIRS_DEFAULT,
    DATA_DIRS_DEFAULT,
};
