//! The title a page asks for.

use vstd::prelude::*;
use vstd::string::StringExecFns;

verus! {

/// The title of a page, shown before the site name.
#[derive(Clone)]
pub struct Title(String);

impl Title {
    pub closed spec fn text(&self) -> Seq<char> {
        self.0@
    }

    /// A title with the given text.
    pub fn new(string: String) -> (title: Title)
        ensures
            title.text() == string@,
    {
        Title(string)
    }

    /// The text of the title.
    pub fn as_str(&self) -> (s: &str)
        ensures
            s@ == self.text(),
    {
        self.0.as_str()
    }
}

/// The text of a page's title element: the page's own title followed by
/// the site name, or the site name alone.
pub fn page_title(title: Option<&Title>) -> (s: String)
    ensures
        s@ == match title {
            Some(t) => t.text() + " \u{b7} Maknuuner"@,
            None => "Maknuuner"@,
        },
{
    match title {
        Some(t) => {
            let mut s = t.as_str().to_owned();
            s.append(" \u{b7} Maknuuner");
            s
        },
        None => "Maknuuner".to_owned(),
    }
}

} // verus!
