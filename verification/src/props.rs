//! How the snake presents itself to the game.

use vstd::prelude::*;

verus! {

/// What the snake tells the game of itself.
pub struct PropsModel {
    pub apiversion: Seq<char>,
    pub author: Seq<char>,
    pub color: Seq<char>,
    pub head: Seq<char>,
    pub tail: Seq<char>,
    pub version: Seq<char>,
}

/// The answer to the game's question who this snake is: the version of the
/// protocol, the author, and the looks.
#[derive(Debug)]
pub struct SnakeProps {
    apiversion: String,
    author: String,
    color: String,
    head: String,
    tail: String,
    version: String,
}

impl View for SnakeProps {
    type V = PropsModel;

    closed spec fn view(&self) -> PropsModel {
        PropsModel {
            apiversion: self.apiversion@,
            author: self.author@,
            color: self.color@,
            head: self.head@,
            tail: self.tail@,
            version: self.version@,
        }
    }
}

impl SnakeProps {
    /// The snake as it shows itself by default.
    pub fn new() -> (p: SnakeProps)
        ensures
            p@ == (PropsModel {
                apiversion: "1"@,
                author: "jiricodes"@,
                color: "#622BAA"@,
                head: "evil"@,
                tail: "rattle"@,
                version: "0.0.1"@,
            }),
    {
        SnakeProps {
            apiversion: "1".to_owned(),
            author: "jiricodes".to_owned(),
            color: "#622BAA".to_owned(),
            head: "evil".to_owned(),
            tail: "rattle".to_owned(),
            version: "0.0.1".to_owned(),
        }
    }

    pub fn set_apiversion(&mut self, apiversion: &str)
        ensures
            final(self)@ == (PropsModel { apiversion: apiversion@, ..old(self)@ }),
    {
        self.apiversion = apiversion.to_owned();
    }

    pub fn set_author(&mut self, author: &str)
        ensures
            final(self)@ == (PropsModel { author: author@, ..old(self)@ }),
    {
        self.author = author.to_owned();
    }

    pub fn set_color(&mut self, color: &str)
        ensures
            final(self)@ == (PropsModel { color: color@, ..old(self)@ }),
    {
        self.color = color.to_owned();
    }

    pub fn set_head(&mut self, head: &str)
        ensures
            final(self)@ == (PropsModel { head: head@, ..old(self)@ }),
    {
        self.head = head.to_owned();
    }

    pub fn set_tail(&mut self, tail: &str)
        ensures
            final(self)@ == (PropsModel { tail: tail@, ..old(self)@ }),
    {
        self.tail = tail.to_owned();
    }

    pub fn set_version(&mut self, version: &str)
        ensures
            final(self)@ == (PropsModel { version: version@, ..old(self)@ }),
    {
        self.version = version.to_owned();
    }

    pub fn apiversion(&self) -> (s: &str)
        ensures
            s@ == self@.apiversion,
    {
        self.apiversion.as_str()
    }

    pub fn author(&self) -> (s: &str)
        ensures
            s@ == self@.author,
    {
        self.author.as_str()
    }

    pub fn color(&self) -> (s: &str)
        ensures
            s@ == self@.color,
    {
        self.color.as_str()
    }

    pub fn head(&self) -> (s: &str)
        ensures
            s@ == self@.head,
    {
        self.head.as_str()
    }

    pub fn tail(&self) -> (s: &str)
        ensures
            s@ == self@.tail,
    {
        self.tail.as_str()
    }

    pub fn version(&self) -> (s: &str)
        ensures
            s@ == self@.version,
    {
        self.version.as_str()
    }
}

} // verus!
