//! Reading a web page: an HTML document is parsed into a tree, its title,
//! plain text and links are collected, its content is turned into readable
//! blocks, and the blocks are broken into lines and laid out for painting.
pub mod dom;
pub mod flow;
pub mod layout;
pub mod page;
pub mod text;
pub mod wrap;

pub use dom::{parse_html, Attribute, DomNode};
pub use flow::{extract_flow, FlowBlock};
pub use layout::{heading_style, layout_content, measure_content_height, DrawOp, LineStyle, PagePlan};
pub use page::{analyze_document, analyze_page, render_document, RenderedPage};
pub use text::{normalize_ws, normalize_ws_multiline};
pub use wrap::{LineBreaker, WrapUnit};
