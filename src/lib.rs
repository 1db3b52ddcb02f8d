//! Paragraph normalisation of blog post bodies, and the pieces of a blog
//! export converter that decide what goes where.

pub mod blank_lines;
pub mod children;
mod dom;
pub mod export;
pub mod normalize;
