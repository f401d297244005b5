//! Screens, their desktops, and the manager that owns them.

pub mod area;
pub mod desktop;
pub mod manager;
pub mod model;
pub mod screen;

pub use area::Area;
pub use desktop::Desktop;
pub use manager::WindowManager;
pub use model::CommandError;
pub use screen::Screen;
