//! A public item of a crate's API, as the tokens of its rendered text.
use vstd::prelude::*;

use crate::tokens::{tokens_text, tokens_to_string, Token};

verus! {

/// A public item: its rendered tokens, its id, and the id of the item it
/// belongs to (for a method, its impl block).
#[derive(Clone, Debug)]
pub struct PublicItem {
    /// The tokens of the rendered item.
    pub tokens: Vec<Token>,
    /// The id of the parent item, if any.
    pub parent_id: Option<u32>,
    /// The id of this item.
    pub id: u32,
}

/// What a public item is: its tokens and ids.
pub struct ItemView {
    pub tokens: Seq<Token>,
    pub parent_id: Option<u32>,
    pub id: u32,
}

impl View for PublicItem {
    type V = ItemView;

    open spec fn view(&self) -> ItemView {
        ItemView { tokens: self.tokens@, parent_id: self.parent_id, id: self.id }
    }
}

/// The views of a sequence of items.
pub open spec fn views(s: Seq<PublicItem>) -> Seq<ItemView> {
    s.map_values(|m: PublicItem| m@)
}

/// The rendered text of an item.
pub open spec fn item_text(it: ItemView) -> Seq<char> {
    tokens_text(it.tokens)
}

impl PublicItem {
    /// The id of this item.
    pub fn id(&self) -> (r: u32)
        ensures
            r == self.id,
    {
        self.id
    }

    /// The id of the item this one belongs to, if any.
    pub fn parent_id(&self) -> (r: Option<u32>)
        ensures
            r == self.parent_id,
    {
        self.parent_id
    }

    /// The rendered text of this item.
    pub fn to_string(&self) -> (s: String)
        ensures
            s@ == item_text(self@),
    {
        tokens_to_string(&self.tokens)
    }

    /// A copy of this item.
    pub fn duplicate(&self) -> (r: PublicItem)
        ensures
            r@ == self@,
    {
        let mut tokens: Vec<Token> = Vec::new();
        let mut i: usize = 0;
        while i < self.tokens.len()
            invariant
                i <= self.tokens@.len(),
                tokens@ == self.tokens@.take(i as int),
            decreases self.tokens@.len() - i,
        {
            tokens.push(self.tokens[i].duplicate());
            i = i + 1;
            assert(tokens@ =~= self.tokens@.take(i as int));
        }
        assert(self.tokens@.take(self.tokens@.len() as int) =~= self.tokens@);
        PublicItem { tokens, parent_id: self.parent_id, id: self.id }
    }
}

} // verus!
