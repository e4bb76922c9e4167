pub mod directory;
pub mod entry;
pub mod error;
pub mod file;
pub mod filesystem;
pub mod metadata;
pub mod node;
pub mod path;
pub mod session;
pub mod walk;

pub use directory::Directory;
pub use entry::{Borrowed, Entry};
pub use error::Error;
pub use file::File;
pub use filesystem::Filesystem;
pub use metadata::Metadata;
pub use path::clean_path;
pub use session::Session;
pub use walk::Walk;
