//! serverbrowser library: configuration, qutebrowser-style navigation,
//! the bookmark mindmap and terminal image encoding.

pub mod cli;
pub mod config;
pub mod markdown_roundtrip;
pub mod mindmap;
pub mod nav;
pub mod output;
pub mod page;
pub mod text;
