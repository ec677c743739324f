//! Renders the maths of a document as images: finds the fragments in the
//! document, writes the source that is typeset for them, places every
//! fragment on the rendered pages, and shrinks the pages by sharing
//! repeated path geometry.
//!
//! Running the typesetter and the renderer, and reading what they write,
//! is left to whoever uses the crate: everything here works on values.
//! All coordinates are exact fixed-point integers; see [`units`].
//!
//! - [`doc`] and [`meta`]: the document tree, the walk that finds the
//!   fragments, and the overrides of the configuration in the metadata.
//! - [`config`]: the configuration.
//! - [`fragment`]: the fragments, the source text with the lines of every
//!   fragment, and the render of all fragments.
//! - [`synctex`]: the position index of the typeset document.
//! - [`svg`]: the geometry of the rendered pages.
//! - [`svgtext`]: the runs of text of a rendered page.
//! - [`region`]: from the boxes of a fragment to its place on the pages.
//! - [`markup`]: the markup that stands for a fragment.
//! - [`svgopt`]: the optimizer of the rendered pages.
//! - [`transport`]: packing the pages for the document.
//! - [`text`]: text and numbers as text.

pub mod config;
pub mod doc;
pub mod fragment;
pub mod markup;
pub mod meta;
pub mod region;
pub mod svg;
pub mod svgopt;
pub mod svgtext;
pub mod synctex;
pub mod text;
pub mod transport;
pub mod units;
