//! Folder-icon mapping library: the configuration model, the reconciliation of
//! a changed configuration against what was applied, the application state that
//! folds in background results, the debounced saving of the configuration, the
//! icon cache, and the small pure computations behind the Windows side effects.
pub mod types;
pub mod text;
pub mod task;
pub mod reconcile;
pub mod reconcile_laws;
pub mod app_state;
pub mod app_laws;
pub mod debounce;
pub mod icon_cache;
pub mod icon_image;
pub mod folder_icon;
