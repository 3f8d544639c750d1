//! The record that the feed parser produces and the cache stores.

use vstd::prelude::*;

verus! {

/// One feed item: its headline and the link to its discussion page.
///
/// Articles are plain values.  Their position in a list is significant: it is
/// the number under which the item is listed and opened again.
#[derive(Debug, Clone, PartialEq, Eq)]
pub struct Article {
    pub title: String,
    pub link: String,
}

/// What an [`Article`] stands for in contracts: its two texts as sequences of
/// characters.
pub struct ArticleView {
    pub title: Seq<char>,
    pub link: Seq<char>,
}

impl View for Article {
    type V = ArticleView;

    open spec fn view(&self) -> ArticleView {
        ArticleView { title: self.title@, link: self.link@ }
    }
}

impl DeepView for Article {
    type V = ArticleView;

    open spec fn deep_view(&self) -> ArticleView {
        self@
    }
}

impl Article {
    /// Builds an article from its two texts.
    pub fn new(title: String, link: String) -> (article: Article)
        ensures
            article@ == (ArticleView { title: title@, link: link@ }),
    {
        Article { title, link }
    }
}

} // verus!
