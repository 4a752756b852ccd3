//! Immutable syntax trees.
//!
//! A *green* tree ([`green`]) stores kinds and texts and knows nothing of where it stands. The
//! *cursor* layer ([`cursor`]) walks a green tree with parent links and absolute text offsets.
//!
//! Cursors are specified over [`place::Place`], a path from the root of a green tree, walks over
//! the sequences of [`walk`]. [`laws`] holds what is proved of all of it together.

pub mod children;
pub mod cursor;
pub mod green;
pub mod laws;
pub mod offsets;
pub mod place;
pub mod preorder;
pub mod syntax_text;
pub mod text_size;
pub mod utility_types;
pub mod walk;

pub use cursor::{SyntaxElement, SyntaxElementChildren, SyntaxNode, SyntaxNodeChildren, SyntaxToken};
pub use green::{GreenElement, GreenElementRef, GreenNode, GreenNodeData, GreenToken, SyntaxKind};
pub use preorder::{Preorder, PreorderWithTokens};
pub use syntax_text::SyntaxText;
pub use text_size::{TextRange, TextSize};
pub use utility_types::{Direction, NodeOrToken, TokenAtOffset, WalkEvent};
