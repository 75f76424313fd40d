//! The in-memory model of a parsed document: a tree of nodes, each with a
//! stable identifier, a title, tags, optional metadata, and children.
//!
//! The textual parser that produces this tree from Markdown or Org text, and
//! the serializer that writes it back, are outside collaborators; the library
//! receives and returns plain trees.

use vstd::prelude::*;

verus! {

/// The format of a document on disk.
#[derive(Clone, Copy, PartialEq, Eq, Structural, Debug)]
pub enum Format {
    Markdown,
    Org,
}

/// A timestamp as the parser hands it over: whether it is active, and its
/// verbatim rendering.
#[derive(Clone, PartialEq, Eq, Debug)]
pub struct StarlingTimestamp {
    pub active: bool,
    pub raw: String,
}

pub struct StarlingTimestampV {
    pub active: bool,
    pub raw: Seq<char>,
}

impl View for StarlingTimestamp {
    type V = StarlingTimestampV;

    open spec fn view(&self) -> StarlingTimestampV {
        StarlingTimestampV { active: self.active, raw: self.raw@ }
    }
}

impl StarlingTimestamp {
    pub fn duplicate(&self) -> (r: Self)
        ensures
            r@ == self@,
    {
        StarlingTimestamp { active: self.active, raw: self.raw.clone() }
    }
}

/// One node of a parsed document: the root (level 0) or a heading.
#[derive(PartialEq, Eq, Debug)]
pub struct StarlingNode {
    /// The node's unique identifier; the parser synthesises one if absent.
    pub id: u128,
    /// 0 for the root; the heading depth otherwise.
    pub level: u8,
    pub title: String,
    pub body: Option<String>,
    pub tags: Vec<String>,
    /// A leading action keyword, one of the configured set.
    pub keyword: Option<String>,
    pub priority: Option<String>,
    pub deadline: Option<StarlingTimestamp>,
    pub scheduled: Option<StarlingTimestamp>,
    pub closed: Option<StarlingTimestamp>,
    /// Freeform properties, beside the reserved id property.
    pub properties: Vec<(String, String)>,
    pub timestamps: Vec<StarlingTimestamp>,
    pub children: Vec<StarlingNode>,
}

/// The mathematical value of a [`StarlingNode`].
#[verifier::ext_equal]
pub struct StarlingNodeV {
    pub id: u128,
    pub level: u8,
    pub title: Seq<char>,
    pub body: Option<Seq<char>>,
    pub tags: Seq<Seq<char>>,
    pub keyword: Option<Seq<char>>,
    pub priority: Option<Seq<char>>,
    pub deadline: Option<StarlingTimestampV>,
    pub scheduled: Option<StarlingTimestampV>,
    pub closed: Option<StarlingTimestampV>,
    pub properties: Seq<(Seq<char>, Seq<char>)>,
    pub timestamps: Seq<StarlingTimestampV>,
    pub children: Seq<StarlingNodeV>,
}

pub open spec fn opt_str_view(s: Option<String>) -> Option<Seq<char>> {
    match s {
        Some(x) => Some(x@),
        None => None,
    }
}

pub open spec fn opt_ts_view(s: Option<StarlingTimestamp>) -> Option<StarlingTimestampV> {
    match s {
        Some(x) => Some(x@),
        None => None,
    }
}

pub open spec fn node_view_of(n: StarlingNode) -> StarlingNodeV
    decreases n,
{
    StarlingNodeV {
        id: n.id,
        level: n.level,
        title: n.title@,
        body: opt_str_view(n.body),
        tags: n.tags@.map_values(|t: String| t@),
        keyword: opt_str_view(n.keyword),
        priority: opt_str_view(n.priority),
        deadline: opt_ts_view(n.deadline),
        scheduled: opt_ts_view(n.scheduled),
        closed: opt_ts_view(n.closed),
        properties: n.properties@.map_values(|p: (String, String)| (p.0@, p.1@)),
        timestamps: n.timestamps@.map_values(|t: StarlingTimestamp| t@),
        children: forest_view(n.children@),
    }
}

pub open spec fn forest_view(s: Seq<StarlingNode>) -> Seq<StarlingNodeV>
    decreases s,
{
    if s.len() == 0 {
        Seq::empty()
    } else {
        seq![node_view_of(s[0])] + forest_view(s.drop_first())
    }
}

impl View for StarlingNode {
    type V = StarlingNodeV;

    open spec fn view(&self) -> StarlingNodeV {
        node_view_of(*self)
    }
}

/// Pointwise description of [`forest_view`].
pub proof fn lemma_forest_view(s: Seq<StarlingNode>)
    ensures
        forest_view(s).len() == s.len(),
        forall|i: int| 0 <= i < s.len() ==> forest_view(s)[i] == node_view_of(#[trigger] s[i]),
    decreases s,
{
    if s.len() > 0 {
        lemma_forest_view(s.drop_first());
        assert forall|i: int| 0 <= i < s.len() implies forest_view(s)[i] == node_view_of(
            #[trigger] s[i],
        ) by {
            if i > 0 {
                assert(forest_view(s)[i] == forest_view(s.drop_first())[i - 1]);
                assert(s.drop_first()[i - 1] == s[i]);
            }
        }
    }
}

impl StarlingNodeV {
    /// All identifiers in this subtree.
    pub open spec fn ids(self) -> Set<u128>
        decreases self,
    {
        Set::empty().insert(self.id).union(Self::forest_ids(self.children))
    }

    pub open spec fn forest_ids(s: Seq<StarlingNodeV>) -> Set<u128>
        decreases s,
    {
        if s.len() == 0 {
            Set::empty()
        } else {
            s[0].ids().union(Self::forest_ids(s.drop_first()))
        }
    }

    /// The node reached by the given child indices, if in range.
    pub open spec fn node_at(self, pos: Seq<usize>) -> Option<StarlingNodeV>
        decreases pos.len(),
    {
        if pos.len() == 0 {
            Some(self)
        } else if (pos[0] as int) < self.children.len() {
            self.children[pos[0] as int].node_at(pos.drop_first())
        } else {
            None
        }
    }

    /// The same tree with the title and body of every node blanked: strings
    /// live only in tokenised form once a document is connected.
    pub open spec fn scrub(self) -> StarlingNodeV
        decreases self,
    {
        StarlingNodeV {
            title: Seq::empty(),
            body: None,
            children: Self::scrub_forest(self.children),
            ..self
        }
    }

    pub open spec fn scrub_forest(s: Seq<StarlingNodeV>) -> Seq<StarlingNodeV>
        decreases s,
    {
        if s.len() == 0 {
            Seq::empty()
        } else {
            seq![s[0].scrub()] + Self::scrub_forest(s.drop_first())
        }
    }

    /// Pointwise description of [`Self::scrub_forest`].
    pub proof fn lemma_scrub_forest(s: Seq<StarlingNodeV>)
        ensures
            Self::scrub_forest(s).len() == s.len(),
            forall|i: int|
                0 <= i < s.len() ==> Self::scrub_forest(s)[i] == (#[trigger] s[i]).scrub(),
        decreases s,
    {
        if s.len() > 0 {
            Self::lemma_scrub_forest(s.drop_first());
            assert forall|i: int|
                0 <= i < s.len() implies Self::scrub_forest(s)[i] == (#[trigger] s[i]).scrub() by {
                if i > 0 {
                    assert(Self::scrub_forest(s)[i] == Self::scrub_forest(s.drop_first())[i - 1]);
                    assert(s.drop_first()[i - 1] == s[i]);
                }
            }
        }
    }

    /// Appending one tree to a forest adds exactly its identifiers.
    pub proof fn lemma_forest_ids_snoc(s: Seq<StarlingNodeV>, x: StarlingNodeV)
        ensures
            Self::forest_ids(s.push(x)) =~= Self::forest_ids(s).union(x.ids()),
        decreases s,
    {
        reveal_with_fuel(StarlingNodeV::forest_ids, 3);
        if s.len() == 0 {
            assert(s.push(x).drop_first() =~= Seq::<StarlingNodeV>::empty());
            assert(s.push(x)[0] == x);
            assert(Self::forest_ids(s.push(x)) =~= Self::forest_ids(s).union(x.ids()));
        } else {
            assert(s.push(x)[0] == s[0]);
            assert(s.push(x).drop_first() =~= s.drop_first().push(x));
            Self::lemma_forest_ids_snoc(s.drop_first(), x);
            assert(Self::forest_ids(s.push(x)) == s[0].ids().union(
                Self::forest_ids(s.drop_first().push(x)),
            ));
            assert(Self::forest_ids(s) == s[0].ids().union(Self::forest_ids(s.drop_first())));
            assert(Self::forest_ids(s.push(x)) =~= Self::forest_ids(s).union(x.ids()));
        }
    }

    /// The set of identifiers of a subtree is finite.
    pub proof fn lemma_ids_finite(self)
        ensures
            self.ids().finite(),
        decreases self,
    {
        Self::lemma_forest_ids_finite(self.children);
    }

    pub proof fn lemma_forest_ids_finite(s: Seq<StarlingNodeV>)
        ensures
            Self::forest_ids(s).finite(),
        decreases s,
    {
        if s.len() > 0 {
            s[0].lemma_ids_finite();
            Self::lemma_forest_ids_finite(s.drop_first());
        }
    }
}

/// A document as handed over by the parser: a root node plus the verbatim
/// attribute block (frontmatter for Markdown, `#+` lines for Org).
#[derive(PartialEq, Eq, Debug)]
pub struct StarlingDocument {
    pub root: StarlingNode,
    pub attributes: String,
}

pub struct StarlingDocumentV {
    pub root: StarlingNodeV,
    pub attributes: Seq<char>,
}

impl View for StarlingDocument {
    type V = StarlingDocumentV;

    open spec fn view(&self) -> StarlingDocumentV {
        StarlingDocumentV { root: self.root@, attributes: self.attributes@ }
    }
}

impl StarlingNode {
    /// A deep copy with the same view.
    pub fn duplicate(&self) -> (r: Self)
        ensures
            r@ == self@,
        decreases *self,
    {
        let body = match &self.body {
            Some(b) => Some(b.clone()),
            None => None,
        };
        let keyword = match &self.keyword {
            Some(k) => Some(k.clone()),
            None => None,
        };
        let priority = match &self.priority {
            Some(p) => Some(p.clone()),
            None => None,
        };
        let deadline = match &self.deadline {
            Some(t) => Some(t.duplicate()),
            None => None,
        };
        let scheduled = match &self.scheduled {
            Some(t) => Some(t.duplicate()),
            None => None,
        };
        let closed = match &self.closed {
            Some(t) => Some(t.duplicate()),
            None => None,
        };
        let mut tags: Vec<String> = Vec::new();
        let mut i: usize = 0;
        let n_tags = self.tags.len();
        while i < n_tags
            invariant
                n_tags == self.tags@.len(),
                0 <= i <= n_tags,
                tags@.len() == i,
                forall|j: int| 0 <= j < i ==> (#[trigger] tags@[j])@ == self.tags@[j]@,
            decreases n_tags - i,
        {
            tags.push(self.tags[i].clone());
            i = i + 1;
        }
        let mut properties: Vec<(String, String)> = Vec::new();
        let n_props = self.properties.len();
        i = 0;
        while i < n_props
            invariant
                n_props == self.properties@.len(),
                0 <= i <= n_props,
                properties@.len() == i,
                forall|j: int|
                    0 <= j < i ==> (#[trigger] properties@[j]).0@ == self.properties@[j].0@
                        && properties@[j].1@ == self.properties@[j].1@,
            decreases n_props - i,
        {
            let p = &self.properties[i];
            properties.push((p.0.clone(), p.1.clone()));
            i = i + 1;
        }
        let mut timestamps: Vec<StarlingTimestamp> = Vec::new();
        let n_ts = self.timestamps.len();
        i = 0;
        while i < n_ts
            invariant
                n_ts == self.timestamps@.len(),
                0 <= i <= n_ts,
                timestamps@.len() == i,
                forall|j: int| 0 <= j < i ==> (#[trigger] timestamps@[j])@ == self.timestamps@[j]@,
            decreases n_ts - i,
        {
            timestamps.push(self.timestamps[i].duplicate());
            i = i + 1;
        }
        let mut children: Vec<StarlingNode> = Vec::new();
        let n_kids = self.children.len();
        i = 0;
        while i < n_kids
            invariant
                n_kids == self.children@.len(),
                0 <= i <= n_kids,
                children@.len() == i,
                forall|j: int| 0 <= j < i ==> (#[trigger] children@[j])@ == self.children@[j]@,
            decreases n_kids - i,
        {
            children.push(self.children[i].duplicate());
            i = i + 1;
        }
        let r = StarlingNode {
            id: self.id,
            level: self.level,
            title: self.title.clone(),
            body,
            tags,
            keyword,
            priority,
            deadline,
            scheduled,
            closed,
            properties,
            timestamps,
            children,
        };
        proof {
            lemma_forest_view(r.children@);
            lemma_forest_view(self.children@);
            assert(r@.tags =~= self@.tags);
            assert(r@.properties =~= self@.properties);
            assert(r@.timestamps =~= self@.timestamps);
            assert forall|j: int|
                0 <= j < r.children@.len() implies forest_view(r.children@)[j] == forest_view(
                self.children@,
            )[j] by {
                assert(forest_view(r.children@)[j] == node_view_of(r.children@[j]));
                assert(forest_view(self.children@)[j] == node_view_of(self.children@[j]));
            }
            assert(r@.children =~= self@.children);
            assert(r@ =~= self@);
        }
        r
    }
}

impl StarlingDocument {
    pub fn duplicate(&self) -> (r: Self)
        ensures
            r@ == self@,
    {
        StarlingDocument { root: self.root.duplicate(), attributes: self.attributes.clone() }
    }
}

} // verus!
