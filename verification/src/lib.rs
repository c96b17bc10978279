//! A tag index for a movie collection that lives on the filesystem.
//!
//! Every movie is a directory under the movie root, every tag a directory
//! under the tag root, and a movie carries a tag exactly when the tag's
//! directory holds a symbolic link named like the movie's directory. The
//! crate keeps the in-memory picture of that layout and decides which single
//! link has to be created or removed when a tag is toggled. It never touches
//! the filesystem itself: callers hand in directory listings and report the
//! outcome of the link operations they performed.
//!
//! - [`hash`] derives a movie's identifier from the name of its directory,
//!   with [`path`] for the paths and [`hextext`] for the identifier's text.
//! - [`scan`] defines what the listings of the two roots mean, [`movies`]
//!   and [`tags`] hold the two tables, and [`collection`] builds, reloads
//!   and toggles.
//! - [`sync`] proves that a toggle and a later scan agree.
//! - [`paging`], [`error`] and [`jellyfin_api`] work out what a front end
//!   shows and what is asked of a media server.

pub mod collection;
pub mod error;
pub mod hash;
pub mod hextext;
pub mod jellyfin_api;
pub mod movies;
pub mod paging;
pub mod path;
pub mod scan;
pub mod sync;
pub mod tags;
pub mod text;

pub use collection::Collection;
pub use error::Error;
pub use hash::{path_hash, PathnameHash};
pub use paging::{paging_controls, OptionalPaging, Paging, PagingControls};
