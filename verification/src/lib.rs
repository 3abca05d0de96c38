//! Quick DOM search with CSS-like selectors.
//!
//! Supported selectors:
//! * tag based: `span`, `a`
//! * class based: `.button`
//! * id based: `#mainbutton`
//! * direct child: `>`
//! * attribute selectors: `[href]`, `[href="specific-value"]`, `[href*="contains-str"]`,
//!   `[href^="begins-with"]`, `[href$="ends-with"]`
//! * all combinations of the above, like `div.container > form#feedback input.button`
//!
//! ```
//! use crabquery::Document;
//!
//! let doc = Document::from("<span>hi there</span>");
//! let sel = doc.select("span");
//! let el = sel.first().unwrap();
//!
//! assert_eq!(el.text().unwrap(), "hi there");
//! ```
//!
//! # What is proved
//!
//! The library is verified with Verus. Texts are modelled as `Seq<char>`, a document as
//! the sequence of its nodes ([`tree::NodeView`]), a selector as the sequence of its
//! matchers ([`matcher::MatcherView`]).
//!
//! * [`selector::parse_selector`] says what a selector text means, and
//!   [`Selector::parse`] returns exactly that, or the error.
//! * [`query::selection`] says what a selector finds in a tree, and [`Document::select`]
//!   and [`Element::select`] return exactly that, in that order.
//! * [`laws`] and [`order`] hold what follows for every document and selector.
//!
//! # What is believed
//!
//! HTML is parsed by `html5ever`. The tree that it builds is not specified here: it
//! has a name, [`html::html_tree`], and [`Document::from`] is proved to copy that tree
//! node by node. The items of [`html`] that read the parser's tree are believed, not
//! proved.
pub mod attribute;
pub mod dom;
pub mod element;
pub mod error;
pub mod html;
pub mod laws;
pub mod matcher;
pub mod order;
pub mod query;
pub mod selector;
pub mod text;
pub mod tree;

pub use attribute::AttributeSpec;
pub use element::Element;
pub use error::ParseError;
pub use html::{default_parse_opts, ParseOptions, MAX_INPUT_CHARS};
pub use matcher::Matcher;
pub use selector::Selector;
pub use tree::{get_attr, Attribute, Document, NodeData};
