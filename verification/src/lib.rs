//! Pure text-processing core of the OmniNote note-taking app.
pub mod text;
pub mod discipline;
pub mod diary;
pub mod offsets;
pub mod menu;
pub mod sheet;
pub mod editor;
pub mod a11y;
pub mod breadcrumb;
pub mod calendar;
pub mod outline;
pub mod tabs;
pub mod timeline;
pub mod toasts;
pub mod app_state;
pub mod mcp;
pub mod import;
pub mod palette;
pub mod theme;
pub mod sync;
pub mod sidebar;
pub mod shortcuts;
