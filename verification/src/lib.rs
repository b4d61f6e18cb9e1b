//! Note text extraction and the similarity index of a note tagger.
pub mod embed;
pub mod hashing;
pub mod index;
pub mod note;
pub mod path;
pub mod text;
