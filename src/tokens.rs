use vstd::prelude::*;

verus! {

/// An ordered sequence of blocks.
pub type Document = Vec<Block>;

/// An ordered sequence of inline nodes.
pub type Text = Vec<Inline>;

/// A link definition: where a reference id points and its optional title.
#[derive(PartialEq, Eq, Debug, Clone)]
pub struct LinkDescription {
    pub id: String,
    pub link: String,
    pub title: Option<String>,
}

#[derive(PartialEq, Eq, Debug)]
pub enum Block {
    Heading { level: usize, content: Text },
    BlockQuote(Document),
    BlockCode { tag: Option<String>, content: String },
    OrderedList { start_index: usize, items: Vec<Document> },
    UnorderedList { items: Vec<Document> },
    Paragraph(Text),
    HorizontalRule,
}

#[derive(PartialEq, Eq, Debug)]
pub enum Inline {
    LineBreak,
    Chunk(String),
    Emphasis(Text),
    MoreEmphasis(Text),
    Code(String),
    /// `text` is `None` for automatic links.
    Link { text: Option<Text>, link: Option<String>, title: Option<String>, id: Option<String> },
    Image { alt: Text, link: Option<String>, title: Option<String>, id: Option<String> },
}

/// No two neighbours in `t` are both text chunks.
pub open spec fn chunks_merged(t: Seq<Inline>) -> bool {
    forall|k: int| 0 <= k < t.len() - 1 ==> !(#[trigger] t[k] is Chunk && t[k + 1] is Chunk)
}

/// Every text inside `i`, at any depth, has its chunks merged.
#[verifier::opaque]
pub open spec fn inline_wf(i: Inline) -> bool
    decreases i,
{
    match i {
        Inline::Emphasis(t) => chunks_merged(t@) && forall|k: int|
            0 <= k < t.len() ==> inline_wf(#[trigger] t@[k]),
        Inline::MoreEmphasis(t) => chunks_merged(t@) && forall|k: int|
            0 <= k < t.len() ==> inline_wf(#[trigger] t@[k]),
        Inline::Link { text, .. } => match text {
            Some(t) => chunks_merged(t@) && forall|k: int|
                0 <= k < t.len() ==> inline_wf(#[trigger] t@[k]),
            None => true,
        },
        Inline::Image { alt, .. } => chunks_merged(alt@) && forall|k: int|
            0 <= k < alt.len() ==> inline_wf(#[trigger] alt@[k]),
        _ => true,
    }
}

/// A text whose chunks are merged at every depth.
pub open spec fn text_wf(t: Seq<Inline>) -> bool {
    chunks_merged(t) && forall|k: int| 0 <= k < t.len() ==> inline_wf(#[trigger] t[k])
}

/// Every text inside block `b`, at any depth, has its chunks merged.
#[verifier::opaque]
pub open spec fn block_wf(b: Block) -> bool
    decreases b,
{
    match b {
        Block::Heading { content, .. } => text_wf(content@),
        Block::Paragraph(t) => text_wf(t@),
        Block::BlockQuote(d) => forall|k: int| 0 <= k < d.len() ==> block_wf(#[trigger] d@[k]),
        Block::OrderedList { items, .. } => forall|k: int, j: int|
            0 <= k < items.len() && 0 <= j < items@[k].len() ==> block_wf(#[trigger] items@[k]@[j]),
        Block::UnorderedList { items } => forall|k: int, j: int|
            0 <= k < items.len() && 0 <= j < items@[k].len() ==> block_wf(#[trigger] items@[k]@[j]),
        _ => true,
    }
}

pub open spec fn document_wf(d: Seq<Block>) -> bool {
    forall|k: int| 0 <= k < d.len() ==> block_wf(#[trigger] d[k])
}

/// Appending `x` keeps a text well formed unless it puts two chunks side by side.
pub proof fn lemma_text_wf_push(t: Seq<Inline>, x: Inline)
    requires
        text_wf(t),
        inline_wf(x),
        t.len() == 0 || !(t.last() is Chunk) || !(x is Chunk),
    ensures
        text_wf(t.push(x)),
{
    let u = t.push(x);
    assert forall|k: int| 0 <= k < u.len() - 1 implies !(#[trigger] u[k] is Chunk && u[k + 1] is Chunk) by {
        if k < t.len() - 1 {
            assert(u[k] == t[k] && u[k + 1] == t[k + 1]);
        } else {
            assert(u[k] == t.last());
        }
    }
    assert forall|k: int| 0 <= k < u.len() implies inline_wf(#[trigger] u[k]) by {
        if k < t.len() {
            assert(u[k] == t[k]);
        }
    }
}

pub proof fn lemma_leaf_wf(x: Inline)
    requires
        x is Chunk || x is Code || x is LineBreak,
    ensures
        inline_wf(x),
{
    reveal(inline_wf);
}

pub proof fn lemma_emphasis_wf(t: Text)
    requires
        text_wf(t@),
    ensures
        inline_wf(Inline::Emphasis(t)),
        inline_wf(Inline::MoreEmphasis(t)),
{
    reveal(inline_wf);
}

pub proof fn lemma_link_wf(t: Text, link: Option<String>, title: Option<String>, id: Option<String>)
    requires
        text_wf(t@),
    ensures
        inline_wf(Inline::Link { text: Some(t), link, title, id }),
        inline_wf(Inline::Image { alt: t, link, title, id }),
{
    reveal(inline_wf);
}

pub proof fn lemma_text_block_wf(level: usize, t: Text)
    requires
        text_wf(t@),
    ensures
        block_wf(Block::Heading { level, content: t }),
        block_wf(Block::Paragraph(t)),
{
    reveal(block_wf);
}

pub proof fn lemma_leaf_block_wf(b: Block)
    requires
        b is HorizontalRule || b is BlockCode,
    ensures
        block_wf(b),
{
    reveal(block_wf);
}

pub proof fn lemma_quote_wf(d: Document)
    requires
        document_wf(d@),
    ensures
        block_wf(Block::BlockQuote(d)),
{
    reveal(block_wf);
}

pub proof fn lemma_lists_wf(start_index: usize, items: Vec<Document>)
    requires
        forall|k: int| 0 <= k < items.len() ==> document_wf(#[trigger] items@[k]@),
    ensures
        block_wf(Block::OrderedList { start_index, items }),
        block_wf(Block::UnorderedList { items }),
{
    reveal(block_wf);
    assert forall|k: int, j: int| 0 <= k < items.len() && 0 <= j < items@[k].len() implies block_wf(
        #[trigger] items@[k]@[j],
    ) by {
        assert(document_wf(items@[k]@));
    }
}

/// A table of link definitions keyed by their id, as written.
///
/// Storing a definition replaces the one with the same id, so each id has
/// at most one.
pub struct LinkMap {
    entries: Vec<LinkDescription>,
}

/// The first index at or after `i` whose entry has id `id`.
pub open spec fn first_match(e: Seq<LinkDescription>, id: Seq<char>, i: int) -> Option<int>
    decreases e.len() - i,
{
    if i < 0 || i >= e.len() {
        None
    } else if e[i].id@ == id {
        Some(i)
    } else {
        first_match(e, id, i + 1)
    }
}

proof fn lemma_first_match_update(e: Seq<LinkDescription>, k: int, d: LinkDescription, id: Seq<char>, i: int)
    requires
        0 <= k < e.len(),
        e[k].id@ != id,
        d.id@ != id,
    ensures
        first_match(e.update(k, d), id, i) == first_match(e, id, i),
    decreases e.len() - i,
{
    if 0 <= i < e.len() {
        lemma_first_match_update(e, k, d, id, i + 1);
    }
}

proof fn lemma_first_match_push(e: Seq<LinkDescription>, d: LinkDescription, id: Seq<char>, i: int)
    requires
        0 <= i,
    ensures
        id != d.id@ ==> first_match(e.push(d), id, i) == first_match(e, id, i),
        (forall|j: int| i <= j < e.len() ==> e[j].id@ != id) ==> first_match(e.push(d), id, i) == (
        if d.id@ == id && i <= e.len() {
            Some(e.len() as int)
        } else {
            None::<int>
        }),
    decreases e.len() + 1 - i,
{
    if i < e.len() + 1 {
        lemma_first_match_push(e, d, id, i + 1);
    }
}

impl LinkMap {
    pub closed spec fn entries(&self) -> Seq<LinkDescription> {
        self.entries@
    }

    /// The definition stored under `id`, if any.
    pub open spec fn spec_get(&self, id: Seq<char>) -> Option<LinkDescription> {
        match first_match(self.entries(), id, 0) {
            Some(k) => Some(self.entries()[k]),
            None => None,
        }
    }

    pub fn new() -> (r: LinkMap)
        ensures
            forall|id: Seq<char>| r.spec_get(id) is None,
    {
        LinkMap { entries: Vec::new() }
    }

    /// The number of definitions.
    pub fn len(&self) -> (r: usize)
        ensures
            r == self.entries().len(),
    {
        self.entries.len()
    }

    /// Stores `desc` under its id, replacing an earlier definition of that id.
    pub fn insert(&mut self, desc: LinkDescription)
        ensures
            final(self).spec_get(desc.id@) == Some(desc),
            forall|id: Seq<char>| id != desc.id@ ==> final(self).spec_get(id) == old(self).spec_get(id),
    {
        let n = self.entries.len();
        let mut i: usize = 0;
        while i < n
            invariant
                n == self.entries@.len(),
                0 <= i <= n,
                self.entries@ == old(self).entries@,
                forall|j: int| 0 <= j < i ==> self.entries@[j].id@ != desc.id@,
            decreases n - i,
        {
            if self.entries[i].id == desc.id {
                let ghost before = self.entries@;
                self.entries.set(i, desc);
                proof {
                    let e = self.entries@;
                    assert(e == before.update(i as int, desc));
                    assert forall|id: Seq<char>| id != desc.id@ implies self.spec_get(id) == old(
                        self,
                    ).spec_get(id) by {
                        lemma_first_match_update(before, i as int, desc, id, 0);
                        match first_match(before, id, 0) {
                            Some(k) => {
                                lemma_first_match_found(before, id, 0);
                                assert(k != i);
                            },
                            None => {},
                        }
                    }
                    lemma_first_match_prefix(e, desc.id@, 0, i as int);
                }
                return;
            }
            i = i + 1;
        }
        let ghost before = self.entries@;
        self.entries.push(desc);
        proof {
            lemma_first_match_push(before, desc, desc.id@, 0);
            assert forall|id: Seq<char>| id != desc.id@ implies self.spec_get(id) == old(
                self,
            ).spec_get(id) by {
                lemma_first_match_push(before, desc, id, 0);
                match first_match(before, id, 0) {
                    Some(k) => {
                        lemma_first_match_found(before, id, 0);
                    },
                    None => {},
                }
            }
        }
    }

    /// The definition stored under `id`, if any.
    pub fn get(&self, id: &String) -> (r: Option<&LinkDescription>)
        ensures
            r matches Some(d) ==> self.spec_get(id@) == Some(*d),
            r is None ==> self.spec_get(id@) is None,
    {
        let n = self.entries.len();
        let mut i: usize = 0;
        while i < n
            invariant
                n == self.entries@.len(),
                0 <= i <= n,
                first_match(self.entries@, id@, 0) == first_match(self.entries@, id@, i as int),
            decreases n - i,
        {
            if self.entries[i].id == *id {
                return Some(&self.entries[i]);
            }
            i = i + 1;
        }
        None
    }
}

proof fn lemma_first_match_found(e: Seq<LinkDescription>, id: Seq<char>, i: int)
    requires
        first_match(e, id, i) is Some,
    ensures
        ({
            let k = first_match(e, id, i)->Some_0;
            &&& i <= k < e.len()
            &&& e[k].id@ == id
        }),
    decreases e.len() - i,
{
    if 0 <= i < e.len() && e[i].id@ != id {
        lemma_first_match_found(e, id, i + 1);
    }
}

/// With no match in `[i, k)` and one at `k`, the first match from `i` is `k`.
proof fn lemma_first_match_prefix(e: Seq<LinkDescription>, id: Seq<char>, i: int, k: int)
    requires
        0 <= i <= k < e.len(),
        e[k].id@ == id,
        forall|j: int| i <= j < k ==> e[j].id@ != id,
    ensures
        first_match(e, id, i) == Some(k),
    decreases k - i,
{
    if i < k {
        lemma_first_match_prefix(e, id, i + 1, k);
    }
}

/// The `(link, title)` pair that a link or image node holds once its id has
/// been looked up: a definition fills an unset link and an unset title, and
/// never overwrites one that is set.
pub open spec fn filled(
    link: Option<String>,
    title: Option<String>,
    id: Option<String>,
    m: LinkMap,
) -> (Option<String>, Option<String>) {
    match id {
        Some(i) => if i@.len() > 0 && m.spec_get(i@) is Some {
            let d = m.spec_get(i@).unwrap();
            (
                if link is None { Some(d.link) } else { link },
                if title is None { d.title } else { title },
            )
        } else {
            (link, title)
        },
        None => (link, title),
    }
}

/// `b` is `a` with every link and image reachable through emphasis filled
/// from `m`.
pub open spec fn inline_resolved(a: Inline, b: Inline, m: LinkMap) -> bool
    decreases a,
{
    match a {
        Inline::Emphasis(t) => match b {
            Inline::Emphasis(u) => u.len() == t.len() && forall|k: int|
                0 <= k < t.len() ==> inline_resolved(#[trigger] t@[k], u@[k], m),
            _ => false,
        },
        Inline::MoreEmphasis(t) => match b {
            Inline::MoreEmphasis(u) => u.len() == t.len() && forall|k: int|
                0 <= k < t.len() ==> inline_resolved(#[trigger] t@[k], u@[k], m),
            _ => false,
        },
        Inline::Link { text, link, title, id } => {
            let (l, ti) = filled(link, title, id, m);
            b == Inline::Link { text, link: l, title: ti, id }
        },
        Inline::Image { alt, link, title, id } => {
            let (l, ti) = filled(link, title, id, m);
            b == Inline::Image { alt, link: l, title: ti, id }
        },
        _ => b == a,
    }
}

pub open spec fn text_resolved(t: Seq<Inline>, u: Seq<Inline>, m: LinkMap) -> bool {
    u.len() == t.len() && forall|k: int| 0 <= k < t.len() ==> inline_resolved(#[trigger] t[k], u[k], m)
}

} // verus!

verus! {

/// `b` is block `a` with every link and image in its text filled from `m`.
pub open spec fn block_resolved(a: Block, b: Block, m: LinkMap) -> bool
    decreases a,
{
    match a {
        Block::Heading { level, content } => match b {
            Block::Heading { level: l, content: c } => l == level && text_resolved(content@, c@, m),
            _ => false,
        },
        Block::Paragraph(t) => match b {
            Block::Paragraph(u) => text_resolved(t@, u@, m),
            _ => false,
        },
        Block::BlockQuote(d) => match b {
            Block::BlockQuote(e) => e.len() == d.len() && forall|k: int|
                0 <= k < d.len() ==> block_resolved(#[trigger] d@[k], e@[k], m),
            _ => false,
        },
        Block::OrderedList { start_index, items } => match b {
            Block::OrderedList { start_index: s, items: its } => s == start_index && its.len()
                == items.len() && forall|k: int|
                0 <= k < items.len() ==> #[trigger] its@[k].len() == items@[k].len() && forall|
                    j: int,
                |
                    0 <= j < items@[k].len() ==> block_resolved(
                        #[trigger] items@[k]@[j],
                        its@[k]@[j],
                        m,
                    ),
            _ => false,
        },
        Block::UnorderedList { items } => match b {
            Block::UnorderedList { items: its } => its.len() == items.len() && forall|k: int|
                0 <= k < items.len() ==> #[trigger] its@[k].len() == items@[k].len() && forall|
                    j: int,
                |
                    0 <= j < items@[k].len() ==> block_resolved(
                        #[trigger] items@[k]@[j],
                        its@[k]@[j],
                        m,
                    ),
            _ => false,
        },
        _ => b == a,
    }
}

pub open spec fn document_resolved(d: Seq<Block>, e: Seq<Block>, m: LinkMap) -> bool {
    e.len() == d.len() && forall|k: int| 0 <= k < d.len() ==> block_resolved(#[trigger] d[k], e[k], m)
}

/// Fills reference links from a table of link definitions.
pub trait FixLinks: Sized {
    /// `after` is `self` with its links filled from `m`.
    spec fn resolved_into(&self, after: &Self, m: LinkMap) -> bool;

    fn fix_links(&mut self, link_map: &LinkMap)
        ensures
            old(self).resolved_into(final(self), *link_map),
    ;

    fn fix_links_opt(&mut self, link_map: Option<&LinkMap>)
        ensures
            match link_map {
                Some(m) => old(self).resolved_into(final(self), *m),
                None => *final(self) == *old(self),
            },
    {
        match link_map {
            Some(hm) => self.fix_links(hm),
            None => {},
        }
    }
}

fn fill_link(
    link: &mut Option<String>,
    title: &mut Option<String>,
    id: &Option<String>,
    m: &LinkMap,
)
    ensures
        (*final(link), *final(title)) == filled(*old(link), *old(title), *id, *m),
{
    match id {
        Some(i) => {
            if !i.as_str().is_empty() {
                match m.get(i) {
                    Some(ld) => {
                        if link.is_none() {
                            *link = Some(ld.link.clone());
                        }
                        if title.is_none() {
                            *title = match &ld.title {
                                Some(t) => Some(t.clone()),
                                None => None,
                            };
                        }
                    },
                    None => {},
                }
            }
        },
        None => {},
    }
}

impl FixLinks for Inline {
    open spec fn resolved_into(&self, after: &Self, m: LinkMap) -> bool {
        inline_resolved(*self, *after, m)
    }

    fn fix_links(&mut self, link_map: &LinkMap)
        decreases *old(self),
    {
        match self {
            Inline::Emphasis(content) => {
                content.fix_links(link_map);
                assert(text_resolved(old(self)->Emphasis_0@, self->Emphasis_0@, *link_map));
            },
            Inline::MoreEmphasis(content) => {
                content.fix_links(link_map);
                assert(text_resolved(old(self)->MoreEmphasis_0@, self->MoreEmphasis_0@, *link_map));
            },
            Inline::Link { link, title, id, .. } => fill_link(link, title, id, link_map),
            Inline::Image { link, title, id, .. } => fill_link(link, title, id, link_map),
            _ => {},
        }
    }
}

impl FixLinks for Text {
    open spec fn resolved_into(&self, after: &Self, m: LinkMap) -> bool {
        text_resolved(self@, after@, m)
    }

    fn fix_links(&mut self, link_map: &LinkMap)
        decreases *old(self),
    {
        let n = self.len();
        let mut k: usize = 0;
        while k < n
            invariant
                n == self.len() == old(self).len(),
                0 <= k <= n,
                forall|j: int| 0 <= j < k ==> inline_resolved(#[trigger] old(self)@[j], self@[j], *link_map),
                forall|j: int| k <= j < n ==> #[trigger] self@[j] == old(self)@[j],
            decreases n - k,
        {
            self[k].fix_links(link_map);
            assert(inline_resolved(old(self)@[k as int], self@[k as int], *link_map));
            k = k + 1;
        }
        assert(text_resolved(old(self)@, self@, *link_map));
        assert(old(self).resolved_into(self, *link_map));
    }
}

impl FixLinks for Block {
    open spec fn resolved_into(&self, after: &Self, m: LinkMap) -> bool {
        block_resolved(*self, *after, m)
    }

    fn fix_links(&mut self, link_map: &LinkMap)
        decreases *old(self),
    {
        match self {
            Block::BlockQuote(content) => {
                content.fix_links(link_map);
                assert(document_resolved(old(self)->BlockQuote_0@, self->BlockQuote_0@, *link_map));
            },
            Block::OrderedList { items, .. } => {
                fix_items(items, link_map);
                assert(items_resolved(old(self)->OrderedList_items@, self->OrderedList_items@, *link_map));
            },
            Block::UnorderedList { items } => {
                fix_items(items, link_map);
                assert(items_resolved(old(self)->UnorderedList_items@, self->UnorderedList_items@, *link_map));
            },
            Block::Paragraph(content) => {
                content.fix_links(link_map);
                assert(text_resolved(old(self)->Paragraph_0@, self->Paragraph_0@, *link_map));
            },
            Block::Heading { content, .. } => {
                content.fix_links(link_map);
                assert(text_resolved(old(self)->Heading_content@, self->Heading_content@, *link_map));
            },
            _ => {},
        }
    }
}

pub open spec fn items_resolved(d: Seq<Document>, e: Seq<Document>, m: LinkMap) -> bool {
    e.len() == d.len() && forall|k: int|
        0 <= k < d.len() ==> #[trigger] e[k].len() == d[k].len() && forall|j: int|
            0 <= j < d[k].len() ==> block_resolved(#[trigger] d[k]@[j], e[k]@[j], m)
}

fn fix_items(items: &mut Vec<Document>, link_map: &LinkMap)
    ensures
        items_resolved(old(items)@, final(items)@, *link_map),
    decreases *old(items),
{
    let n = items.len();
    let mut k: usize = 0;
    while k < n
        invariant
            n == items.len() == old(items).len(),
            0 <= k <= n,
            forall|j: int|
                0 <= j < k ==> document_resolved(#[trigger] old(items)@[j]@, items@[j]@, *link_map),
            forall|j: int| k <= j < n ==> #[trigger] items@[j] == old(items)@[j],
        decreases n - k,
    {
        items[k].fix_links(link_map);
        assert(document_resolved(old(items)@[k as int]@, items@[k as int]@, *link_map));
        k = k + 1;
    }
    assert forall|j: int| 0 <= j < n implies #[trigger] items@[j].len() == old(items)@[j].len()
        && forall|i: int|
        0 <= i < old(items)@[j].len() ==> block_resolved(#[trigger] old(items)@[j]@[i], items@[j]@[i], *link_map) by {
        assert(document_resolved(old(items)@[j]@, items@[j]@, *link_map));
    }
}

impl FixLinks for Document {
    open spec fn resolved_into(&self, after: &Self, m: LinkMap) -> bool {
        document_resolved(self@, after@, m)
    }

    fn fix_links(&mut self, link_map: &LinkMap)
        decreases *old(self),
    {
        let n = self.len();
        let mut k: usize = 0;
        while k < n
            invariant
                n == self.len() == old(self).len(),
                0 <= k <= n,
                forall|j: int| 0 <= j < k ==> block_resolved(#[trigger] old(self)@[j], self@[j], *link_map),
                forall|j: int| k <= j < n ==> #[trigger] self@[j] == old(self)@[j],
            decreases n - k,
        {
            self[k].fix_links(link_map);
            assert(block_resolved(old(self)@[k as int], self@[k as int], *link_map));
            k = k + 1;
        }
        assert(document_resolved(old(self)@, self@, *link_map));
        assert(old(self).resolved_into(self, *link_map));
    }
}

/// Node-for-node equality of two inline trees.
pub open spec fn inline_same(a: Inline, b: Inline) -> bool
    decreases a,
{
    match a {
        Inline::Emphasis(t) => match b {
            Inline::Emphasis(u) => u.len() == t.len() && forall|k: int|
                0 <= k < t.len() ==> inline_same(#[trigger] t@[k], u@[k]),
            _ => false,
        },
        Inline::MoreEmphasis(t) => match b {
            Inline::MoreEmphasis(u) => u.len() == t.len() && forall|k: int|
                0 <= k < t.len() ==> inline_same(#[trigger] t@[k], u@[k]),
            _ => false,
        },
        _ => b == a,
    }
}

pub open spec fn text_same(t: Seq<Inline>, u: Seq<Inline>) -> bool {
    u.len() == t.len() && forall|k: int| 0 <= k < t.len() ==> inline_same(#[trigger] t[k], u[k])
}

/// Node-for-node equality of two block trees.
pub open spec fn block_same(a: Block, b: Block) -> bool
    decreases a,
{
    match a {
        Block::Heading { level, content } => match b {
            Block::Heading { level: l, content: c } => l == level && text_same(content@, c@),
            _ => false,
        },
        Block::Paragraph(t) => match b {
            Block::Paragraph(u) => text_same(t@, u@),
            _ => false,
        },
        Block::BlockQuote(d) => match b {
            Block::BlockQuote(e) => e.len() == d.len() && forall|k: int|
                0 <= k < d.len() ==> block_same(#[trigger] d@[k], e@[k]),
            _ => false,
        },
        Block::OrderedList { start_index, items } => match b {
            Block::OrderedList { start_index: s, items: its } => s == start_index && its.len()
                == items.len() && forall|k: int|
                0 <= k < items.len() ==> #[trigger] its@[k].len() == items@[k].len() && forall|
                    j: int,
                | 0 <= j < items@[k].len() ==> block_same(#[trigger] items@[k]@[j], its@[k]@[j]),
            _ => false,
        },
        Block::UnorderedList { items } => match b {
            Block::UnorderedList { items: its } => its.len() == items.len() && forall|k: int|
                0 <= k < items.len() ==> #[trigger] its@[k].len() == items@[k].len() && forall|
                    j: int,
                | 0 <= j < items@[k].len() ==> block_same(#[trigger] items@[k]@[j], its@[k]@[j]),
            _ => false,
        },
        _ => b == a,
    }
}

pub open spec fn document_same(d: Seq<Block>, e: Seq<Block>) -> bool {
    e.len() == d.len() && forall|k: int| 0 <= k < d.len() ==> block_same(#[trigger] d[k], e[k])
}

proof fn lemma_filled_twice(
    link: Option<String>,
    title: Option<String>,
    id: Option<String>,
    m: LinkMap,
)
    ensures
        ({
            let (l, t) = filled(link, title, id, m);
            filled(l, t, id, m) == (l, t)
        }),
{
}

proof fn lemma_inline_resolved_twice(a: Inline, b: Inline, c: Inline, m: LinkMap)
    requires
        inline_resolved(a, b, m),
        inline_resolved(b, c, m),
    ensures
        inline_same(b, c),
    decreases a,
{
    match a {
        Inline::Emphasis(t) => {
            let u = b->Emphasis_0;
            let v = c->Emphasis_0;
            assert forall|k: int| 0 <= k < u.len() implies inline_same(#[trigger] u@[k], v@[k]) by {
                lemma_inline_resolved_twice(t@[k], u@[k], v@[k], m);
            }
        },
        Inline::MoreEmphasis(t) => {
            let u = b->MoreEmphasis_0;
            let v = c->MoreEmphasis_0;
            assert forall|k: int| 0 <= k < u.len() implies inline_same(#[trigger] u@[k], v@[k]) by {
                lemma_inline_resolved_twice(t@[k], u@[k], v@[k], m);
            }
        },
        Inline::Link { text, link, title, id } => {
            lemma_filled_twice(link, title, id, m);
        },
        Inline::Image { alt, link, title, id } => {
            lemma_filled_twice(link, title, id, m);
        },
        _ => {},
    }
}

proof fn lemma_text_resolved_twice(t: Seq<Inline>, u: Seq<Inline>, v: Seq<Inline>, m: LinkMap)
    requires
        text_resolved(t, u, m),
        text_resolved(u, v, m),
    ensures
        text_same(u, v),
{
    assert forall|k: int| 0 <= k < u.len() implies inline_same(#[trigger] u[k], v[k]) by {
        lemma_inline_resolved_twice(t[k], u[k], v[k], m);
    }
}

proof fn lemma_block_resolved_twice(a: Block, b: Block, c: Block, m: LinkMap)
    requires
        block_resolved(a, b, m),
        block_resolved(b, c, m),
    ensures
        block_same(b, c),
    decreases a,
{
    match a {
        Block::Heading { level, content } => {
            assert(b is Heading);
            assert(c is Heading);
            lemma_text_resolved_twice(content@, b->Heading_content@, c->Heading_content@, m);

        },
        Block::Paragraph(t) => {
            lemma_text_resolved_twice(t@, b->Paragraph_0@, c->Paragraph_0@, m);
        },
        Block::BlockQuote(d) => {
            let e = b->BlockQuote_0;
            let f = c->BlockQuote_0;
            assert forall|k: int| 0 <= k < e.len() implies block_same(#[trigger] e@[k], f@[k]) by {
                lemma_block_resolved_twice(d@[k], e@[k], f@[k], m);
            }
        },
        Block::OrderedList { start_index, items } => {
            let e = b->OrderedList_items;
            let f = c->OrderedList_items;
            assert forall|k: int| 0 <= k < e.len() implies #[trigger] f@[k].len() == e@[k].len()
                && forall|j: int| 0 <= j < e@[k].len() ==> block_same(#[trigger] e@[k]@[j], f@[k]@[j]) by {
                assert(e@[k].len() == items@[k].len());
                assert(f@[k].len() == e@[k].len());
                assert forall|j: int| 0 <= j < e@[k].len() implies block_same(#[trigger] e@[k]@[j], f@[k]@[j]) by {
                    lemma_block_resolved_twice(items@[k]@[j], e@[k]@[j], f@[k]@[j], m);
                }
            }
        },
        Block::UnorderedList { items } => {
            let e = b->UnorderedList_items;
            let f = c->UnorderedList_items;
            assert forall|k: int| 0 <= k < e.len() implies #[trigger] f@[k].len() == e@[k].len()
                && forall|j: int| 0 <= j < e@[k].len() ==> block_same(#[trigger] e@[k]@[j], f@[k]@[j]) by {
                assert(e@[k].len() == items@[k].len());
                assert(f@[k].len() == e@[k].len());
                assert forall|j: int| 0 <= j < e@[k].len() implies block_same(#[trigger] e@[k]@[j], f@[k]@[j]) by {
                    lemma_block_resolved_twice(items@[k]@[j], e@[k]@[j], f@[k]@[j], m);
                }
            }
        },
        _ => {
            assert(b == a);
            assert(c == b);
        },
    }
}

/// Resolving links twice with the same table gives, node for node, the tree
/// that resolving once gave: a link or title that is set is never
/// overwritten.
pub proof fn law_resolution_idempotent(d: Document, once: Document, twice: Document, m: LinkMap)
    requires
        d.resolved_into(&once, m),
        once.resolved_into(&twice, m),
    ensures
        document_same(once@, twice@),
{
    assert forall|k: int| 0 <= k < once.len() implies block_same(#[trigger] once@[k], twice@[k]) by {
        lemma_block_resolved_twice(d@[k], once@[k], twice@[k], m);
    }
}

} // verus!
