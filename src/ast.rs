use vstd::prelude::*;

verus! {

// The document tree, and beside each type its mathematical view.

/// A calendar date as year, month and day.
#[derive(Debug, Clone, Copy, PartialEq, Eq, Structural)]
pub struct Date {
    pub year: i32,
    pub month: u32,
    pub day: u32,
}

impl Date {
    pub open spec fn view(&self) -> (int, int, int) {
        (self.year as int, self.month as int, self.day as int)
    }
}

/// A heading line: its number of `=` markers and its text.
#[derive(Debug, Clone, PartialEq, Eq)]
pub struct SectionHeading {
    pub level: usize,
    pub text: String,
}

#[derive(Debug, PartialEq, Eq)]
pub struct Document {
    pub header: Option<DocumentHeader>,
    pub content: DocumentContent,
}

#[derive(Debug, Clone, PartialEq, Eq)]
pub struct DocumentHeader {
    pub title: Option<String>,
    pub authors: Vec<Author>,
    pub revision: Revision,
}

#[derive(Debug, Clone, PartialEq, Eq)]
pub struct Author {
    pub first_name: String,
    pub middle_name: Option<String>,
    pub last_name: Option<String>,
    /// The text of the address, checked to parse as a URI.
    pub email: Option<String>,
}

#[derive(Debug, Clone, PartialEq, Eq)]
pub struct Revision {
    pub version: Vec<isize>,
    pub date: Option<Date>,
    pub remark: String,
}

#[derive(Debug, PartialEq, Eq)]
pub struct DocumentContent {
    pub blocks: Vec<Block>,
}

#[derive(Debug, PartialEq, Eq)]
pub struct Block {
    pub title: String,
    /// The number of heading markers of a section; 0 for other blocks.
    pub level: usize,
    pub attributes: Vec<Attribute>,
    pub content: BlockContent,
}

#[derive(Debug, Clone, PartialEq, Eq)]
pub struct Attribute {
    pub key: String,
    pub value: Option<String>,
}

#[derive(Debug, PartialEq, Eq)]
pub enum BlockContent {
    List(Vec<ListContent>),
    Section(Vec<SectionContent>),
    Delimited(Vec<DelimitedBlockContent>),
    Undelimited(Vec<UndelimitedBlockContent>),
}

#[derive(Debug, PartialEq, Eq)]
pub enum ListContent {
    UnorderedList(UnorderedListContent),
    OrderedList(OrderedListContent),
}

#[derive(Debug, PartialEq, Eq)]
pub struct UnorderedListContent {
    pub text: String,
    pub sublist: Vec<ListContent>,
}

#[derive(Debug, PartialEq, Eq)]
pub struct OrderedListContent {
    pub text: String,
    pub sublist: Vec<ListContent>,
}

#[derive(Debug, PartialEq, Eq)]
pub enum SectionContent {
    Text(String),
    Block(Block),
}

#[derive(Debug, PartialEq, Eq)]
pub enum DelimitedBlockContent {
    Text(String),
    Block(Block),
}

#[derive(Debug, PartialEq, Eq)]
pub enum UndelimitedBlockContent {
    Text(String),
    Block(Block),
}

pub struct AuthorV {
    pub first: Seq<char>,
    pub middle: Option<Seq<char>>,
    pub last: Option<Seq<char>>,
    pub email: Option<Seq<char>>,
}

pub struct RevisionV {
    pub version: Seq<int>,
    pub date: Option<(int, int, int)>,
    pub remark: Seq<char>,
}

pub struct HeaderV {
    pub title: Option<Seq<char>>,
    pub authors: Seq<AuthorV>,
    pub revision: RevisionV,
}

pub struct AttrV {
    pub key: Seq<char>,
    pub value: Option<Seq<char>>,
}

pub struct ListV {
    pub ordered: bool,
    pub text: Seq<char>,
    pub sublist: Seq<ListV>,
}

pub enum NodeV {
    Text(Seq<char>),
    Block(BlockV),
}

pub enum ContentV {
    List(Seq<ListV>),
    Section(Seq<NodeV>),
    Delimited(Seq<NodeV>),
    Undelimited(Seq<NodeV>),
}

pub struct BlockV {
    pub title: Seq<char>,
    pub level: nat,
    pub attributes: Seq<AttrV>,
    pub content: ContentV,
}

pub struct DocumentV {
    pub header: Option<HeaderV>,
    pub blocks: Seq<BlockV>,
}

pub open spec fn opt_str(o: Option<String>) -> Option<Seq<char>> {
    match o {
        Some(s) => Some(s@),
        None => None,
    }
}

impl Author {
    pub open spec fn view(&self) -> AuthorV {
        AuthorV {
            first: self.first_name@,
            middle: opt_str(self.middle_name),
            last: opt_str(self.last_name),
            email: opt_str(self.email),
        }
    }
}

pub open spec fn authors_view(v: Seq<Author>) -> Seq<AuthorV> {
    v.map_values(|a: Author| a@)
}

pub open spec fn version_view(v: Seq<isize>) -> Seq<int> {
    v.map_values(|x: isize| x as int)
}

impl Revision {
    pub open spec fn view(&self) -> RevisionV {
        RevisionV {
            version: version_view(self.version@),
            date: match self.date {
                Some(d) => Some(d@),
                None => None,
            },
            remark: self.remark@,
        }
    }
}

impl DocumentHeader {
    pub open spec fn view(&self) -> HeaderV {
        HeaderV {
            title: opt_str(self.title),
            authors: authors_view(self.authors@),
            revision: self.revision@,
        }
    }
}

impl Attribute {
    pub open spec fn view(&self) -> AttrV {
        AttrV { key: self.key@, value: opt_str(self.value) }
    }
}

pub open spec fn attrs_view(v: Seq<Attribute>) -> Seq<AttrV> {
    v.map_values(|a: Attribute| a@)
}

impl ListContent {
    pub open spec fn view(&self) -> ListV
        decreases self,
    {
        match self {
            ListContent::UnorderedList(u) => ListV {
                ordered: false,
                text: u.text@,
                sublist: Seq::new(
                    u.sublist@.len(),
                    |k: int|
                        if 0 <= k < u.sublist@.len() {
                            u.sublist@[k].view()
                        } else {
                            ListV { ordered: false, text: Seq::empty(), sublist: Seq::empty() }
                        },
                ),
            },
            ListContent::OrderedList(o) => ListV {
                ordered: true,
                text: o.text@,
                sublist: Seq::new(
                    o.sublist@.len(),
                    |k: int|
                        if 0 <= k < o.sublist@.len() {
                            o.sublist@[k].view()
                        } else {
                            ListV { ordered: false, text: Seq::empty(), sublist: Seq::empty() }
                        },
                ),
            },
        }
    }
}

pub open spec fn list_view(v: Seq<ListContent>) -> Seq<ListV> {
    v.map_values(|x: ListContent| x@)
}

impl Block {
    pub open spec fn view(&self) -> BlockV
        decreases self,
    {
        BlockV {
            title: self.title@,
            level: self.level as nat,
            attributes: attrs_view(self.attributes@),
            content: match &self.content {
                BlockContent::List(v) => ContentV::List(list_view(v@)),
                BlockContent::Section(v) => ContentV::Section(
                    Seq::new(
                        v@.len(),
                        |k: int|
                            if 0 <= k < v@.len() {
                                match &v@[k] {
                                    SectionContent::Text(t) => NodeV::Text(t@),
                                    SectionContent::Block(b) => NodeV::Block(b.view()),
                                }
                            } else {
                                NodeV::Text(Seq::empty())
                            },
                    ),
                ),
                BlockContent::Delimited(v) => ContentV::Delimited(
                    Seq::new(
                        v@.len(),
                        |k: int|
                            if 0 <= k < v@.len() {
                                match &v@[k] {
                                    DelimitedBlockContent::Text(t) => NodeV::Text(t@),
                                    DelimitedBlockContent::Block(b) => NodeV::Block(b.view()),
                                }
                            } else {
                                NodeV::Text(Seq::empty())
                            },
                    ),
                ),
                BlockContent::Undelimited(v) => ContentV::Undelimited(
                    Seq::new(
                        v@.len(),
                        |k: int|
                            if 0 <= k < v@.len() {
                                match &v@[k] {
                                    UndelimitedBlockContent::Text(t) => NodeV::Text(t@),
                                    UndelimitedBlockContent::Block(b) => NodeV::Block(b.view()),
                                }
                            } else {
                                NodeV::Text(Seq::empty())
                            },
                    ),
                ),
            },
        }
    }
}

impl SectionContent {
    pub open spec fn view(&self) -> NodeV {
        match self {
            SectionContent::Text(t) => NodeV::Text(t@),
            SectionContent::Block(b) => NodeV::Block(b@),
        }
    }
}

impl DelimitedBlockContent {
    pub open spec fn view(&self) -> NodeV {
        match self {
            DelimitedBlockContent::Text(t) => NodeV::Text(t@),
            DelimitedBlockContent::Block(b) => NodeV::Block(b@),
        }
    }
}

impl UndelimitedBlockContent {
    pub open spec fn view(&self) -> NodeV {
        match self {
            UndelimitedBlockContent::Text(t) => NodeV::Text(t@),
            UndelimitedBlockContent::Block(b) => NodeV::Block(b@),
        }
    }
}

pub open spec fn section_view(v: Seq<SectionContent>) -> Seq<NodeV> {
    v.map_values(|x: SectionContent| x@)
}

pub open spec fn delimited_view(v: Seq<DelimitedBlockContent>) -> Seq<NodeV> {
    v.map_values(|x: DelimitedBlockContent| x@)
}

pub open spec fn undelimited_view(v: Seq<UndelimitedBlockContent>) -> Seq<NodeV> {
    v.map_values(|x: UndelimitedBlockContent| x@)
}

impl BlockContent {
    pub open spec fn view(&self) -> ContentV {
        match self {
            BlockContent::List(v) => ContentV::List(list_view(v@)),
            BlockContent::Section(v) => ContentV::Section(section_view(v@)),
            BlockContent::Delimited(v) => ContentV::Delimited(delimited_view(v@)),
            BlockContent::Undelimited(v) => ContentV::Undelimited(undelimited_view(v@)),
        }
    }
}

/// A block's view, through the views of its parts.
pub proof fn lemma_block_view(b: &Block)
    ensures
        b@ == (BlockV {
            title: b.title@,
            level: b.level as nat,
            attributes: attrs_view(b.attributes@),
            content: b.content@,
        }),
{
    match &b.content {
        BlockContent::List(v) => {},
        BlockContent::Section(v) => {
            assert(b@.content->Section_0 =~= section_view(v@));
        },
        BlockContent::Delimited(v) => {
            assert(b@.content->Delimited_0 =~= delimited_view(v@));
        },
        BlockContent::Undelimited(v) => {
            assert(b@.content->Undelimited_0 =~= undelimited_view(v@));
        },
    }
}

/// A list item's view, through the views of its sublist.
pub proof fn lemma_list_item_view(x: &ListContent)
    ensures
        match x {
            ListContent::UnorderedList(u) => x@ == (ListV {
                ordered: false,
                text: u.text@,
                sublist: list_view(u.sublist@),
            }),
            ListContent::OrderedList(o) => x@ == (ListV {
                ordered: true,
                text: o.text@,
                sublist: list_view(o.sublist@),
            }),
        },
{
    match x {
        ListContent::UnorderedList(u) => {
            assert(x@.sublist =~= list_view(u.sublist@));
        },
        ListContent::OrderedList(o) => {
            assert(x@.sublist =~= list_view(o.sublist@));
        },
    }
}

pub open spec fn blocks_view(v: Seq<Block>) -> Seq<BlockV> {
    v.map_values(|b: Block| b@)
}

impl Document {
    pub open spec fn view(&self) -> DocumentV {
        DocumentV {
            header: match &self.header {
                Some(h) => Some(h@),
                None => None,
            },
            blocks: blocks_view(self.content.blocks@),
        }
    }
}

} // verus!
