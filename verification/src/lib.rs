//! Style resolution and layout-box construction for a miniature rendering
//! pipeline: a document tree and a stylesheet go in; a tree of typed layout
//! boxes, ready for a geometry pass, comes out.
//!
//! The pipeline has four stages, each a pure tree transformation:
//! selector matching decides whether a selector applies to an element;
//! the cascade resolves conflicting declarations by specificity and
//! stylesheet order; the style-tree builder annotates every document node
//! with its resolved property map; and the layout-box builder turns the
//! styled tree into block, inline and anonymous-block boxes.

pub mod css;
pub mod dom;
pub mod layout;
pub mod parser;
pub mod strings;
pub mod style;
