//! Dependency resolution for Python packages.
//!
//! The search for the packages that some requirements lead to
//! ([`graph::GuessGraph`]) decides and says what it has to be told next: the
//! versions of a package, which the package warehouse knows, or the
//! requirements of packages, which a dependency service knows. What it is told
//! comes from outside; nothing here goes to the network. Once the search is
//! complete, [`resolve::resolve`] says what is to be installed.
//!
//! What the search comes to is said by recursion in [`guess`], and what it
//! guarantees in [`follow`] and [`origin`]. What holds of the packages to be
//! installed stands in [`installed`] and [`again`].

pub mod again;
pub mod choice;
pub mod constraint;
pub mod error;
pub mod follow;
pub mod graph;
pub mod guess;
pub mod installed;
pub mod lock;
pub mod origin;
pub mod pydeps;
pub mod req;
pub mod resolve;
pub mod select;
pub mod settings;
pub mod table;
pub mod text;
pub mod version;
pub mod warehouse;
