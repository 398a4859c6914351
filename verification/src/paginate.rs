//! What a paginated page says around the text: the Document's name and the
//! title page's strings, and how a block that stands on a ground carries it
//! across the pages it is cut over. Where anything stands on the paper is
//! measured in points, and is the renderer's.

use vstd::prelude::*;

verus! {

/// What the furniture says: the Document's name, and the title page's three
/// strings as the front matter has them.
#[derive(Clone, Debug, PartialEq, Eq)]
pub struct Wording {
    /// The Document's name, which is what the header prints.
    pub name: String,
    /// The title page's title; the Document's name where the front matter
    /// names none.
    pub title: Option<String>,
    /// The title page's author.
    pub author: Option<String>,
    /// The title page's date.
    pub date: Option<String>,
}

impl Default for Wording {
    /// No name and no title page strings.
    fn default() -> (wording: Wording)
        ensures
            wording.name@.len() == 0,
            wording.title is None,
            wording.author is None,
            wording.date is None,
    {
        Wording { name: String::new(), title: None, author: None, date: None }
    }
}

impl Wording {
    /// The title page's rule: the front matter's title, and the Document's
    /// own name where it names none.
    pub fn title_or_name(&self) -> (title: String)
        ensures
            title@ == match self.title {
                Some(title) => title@,
                None => self.name@,
            },
    {
        match &self.title {
            Some(title) => title.clone(),
            None => self.name.clone(),
        }
    }
}

/// How the part of a block on one page stands on its ground.
#[derive(Clone, Copy, Debug, PartialEq, Eq, Structural)]
pub enum Ground {
    /// The block does not stand on a ground.
    Bare,
    /// The whole block is here: the ground opens and closes on this page.
    Whole,
    /// The block starts here and runs on: the ground opens and is left open.
    Opens,
    /// Neither end of the block is here: the ground runs the part's height.
    Continues,
    /// The block ends here, having opened on an earlier page.
    Closes,
}

/// What a line of furniture is.
#[derive(Clone, Copy, Debug, PartialEq, Eq, Structural)]
pub enum Role {
    /// The Document's name, in the top margin.
    Header,
    /// The page number, in the bottom margin.
    Footer,
    /// The title page's title.
    Title,
    /// The title page's author.
    Author,
    /// The title page's date.
    Date,
}

/// The ground of the part of a block on one page: none where the block does
/// not stand on one, and otherwise by which of the block's ends are on the
/// page: its first line (`first`), its last (`last`), both or neither.
pub open spec fn ground_of(stands: bool, first: bool, last: bool) -> Ground {
    if !stands {
        Ground::Bare
    } else if first && last {
        Ground::Whole
    } else if first {
        Ground::Opens
    } else if last {
        Ground::Closes
    } else {
        Ground::Continues
    }
}

/// The ground of the part of a block on one page.
pub fn ground(stands: bool, first: bool, last: bool) -> (ground: Ground)
    ensures
        ground == ground_of(stands, first, last),
{
    if stands {
        match (first, last) {
            (true, true) => Ground::Whole,
            (true, false) => Ground::Opens,
            (false, true) => Ground::Closes,
            (false, false) => Ground::Continues,
        }
    } else {
        Ground::Bare
    }
}

} // verus!
