//! The per-file record: the last good parse of a path and its id set, and
//! the diff that turns a fresh parse into graph instructions.

use crate::config::{seq_contains_string, vec_contains_string, Config};
use crate::connection::{
    spec_render, ConnectedDocument, ConnectedDocumentV, ParallelConnectionsV,
    SingleConnectedNodeV,
};
use crate::document::{Format, StarlingDocument, StarlingNode, StarlingNodeV};
use crate::error::{PathParseError, PathParseErrorV};
use crate::graph::{GraphUpdate, GraphUpdateV};
use crate::keymap::{KeySet, Stored};
use vstd::prelude::*;

verus! {

/// A keyword parser that works off the keywords provided in the
/// configuration.
#[derive(Clone, PartialEq, Eq, Debug)]
pub struct StarlingKeyword {
    pub keyword: String,
}

impl StarlingKeyword {
    /// Accepts exactly the configured action keywords.
    pub fn from_str(keyword: &str, config: &Config) -> (r: Option<StarlingKeyword>)
        ensures
            match r {
                Some(k) => k.keyword@ == keyword@ && seq_contains_string(
                    config.action_keywords@,
                    keyword@,
                ),
                None => !seq_contains_string(config.action_keywords@, keyword@),
            },
    {
        let probe = keyword.to_owned();
        if vec_contains_string(&config.action_keywords, &probe) {
            Some(StarlingKeyword { keyword: probe })
        } else {
            None
        }
    }

    pub fn into_string(self) -> (r: String)
        ensures
            r@ == self.keyword@,
    {
        self.keyword
    }

    /// Any other string is carried through as an unrecognised keyword.
    pub fn other(keyword: String) -> (r: StarlingKeyword)
        ensures
            r.keyword@ == keyword@,
    {
        StarlingKeyword { keyword }
    }
}

/// Whether the path names an Org file; anything else is Markdown.
pub open spec fn spec_is_org(s: Seq<char>) -> bool {
    s.len() >= 4 && s.subrange(s.len() - 4, s.len() as int) == seq!['.', 'o', 'r', 'g']
}

pub open spec fn spec_format_of(s: Seq<char>) -> Format {
    if spec_is_org(s) {
        Format::Org
    } else {
        Format::Markdown
    }
}

/// The format a path's contents are in, by its extension.
pub fn path_format(path: &String) -> (r: Format)
    ensures
        r == spec_format_of(path@),
{
    let cs = crate::chars::string_to_chars(path.as_str());
    let n = cs.len();
    if n >= 4 && cs[n - 4] == '.' && cs[n - 3] == 'o' && cs[n - 2] == 'r' && cs[n - 1] == 'g' {
        proof {
            assert(path@.subrange(path@.len() - 4, path@.len() as int) =~= seq![
                '.',
                'o',
                'r',
                'g',
            ]);
        }
        Format::Org
    } else {
        proof {
            if spec_is_org(path@) {
                let suf = path@.subrange(path@.len() - 4, path@.len() as int);
                assert(cs@[n - 4] == suf[0]);
                assert(cs@[n - 3] == suf[1]);
                assert(cs@[n - 2] == suf[2]);
                assert(cs@[n - 1] == suf[3]);
            }
        }
        Format::Markdown
    }
}

/// No id occurs twice within the subtree.
pub open spec fn tree_ids_unique(nv: StarlingNodeV) -> bool
    decreases nv,
{
    &&& !StarlingNodeV::forest_ids(nv.children).contains(nv.id)
    &&& forest_ids_unique(nv.children)
}

pub open spec fn forest_ids_unique(s: Seq<StarlingNodeV>) -> bool
    decreases s,
{
    if s.len() == 0 {
        true
    } else {
        &&& tree_ids_unique(s[0])
        &&& s[0].ids().disjoint(StarlingNodeV::forest_ids(s.drop_first()))
        &&& forest_ids_unique(s.drop_first())
    }
}

/// Every tag in the subtree is in the allowed set.
pub open spec fn tree_tags_ok(nv: StarlingNodeV, allowed: Seq<String>) -> bool
    decreases nv,
{
    &&& (forall|i: int|
        0 <= i < nv.tags.len() ==> seq_contains_string_view(allowed, #[trigger] nv.tags[i]))
    &&& forest_tags_ok(nv.children, allowed)
}

pub open spec fn forest_tags_ok(s: Seq<StarlingNodeV>, allowed: Seq<String>) -> bool
    decreases s,
{
    if s.len() == 0 {
        true
    } else {
        tree_tags_ok(s[0], allowed) && forest_tags_ok(s.drop_first(), allowed)
    }
}

/// As [`seq_contains_string`], over a tag's characters.
pub open spec fn seq_contains_string_view(s: Seq<String>, q: Seq<char>) -> bool {
    seq_contains_string(s, q)
}

/// A parse is accepted when its ids are unique and, if tag checking is
/// enabled (a non-empty configured tag set), every tag is allowed.
pub open spec fn parse_accepted(root: StarlingNodeV, config: Config) -> bool {
    &&& tree_ids_unique(root)
    &&& (config.tags@.len() > 0 ==> tree_tags_ok(root, config.tags@))
}

/// Walks the tree accumulating ids; fails on the first duplicate.
fn collect_ids(node: &StarlingNode, seen: &mut KeySet<u128>) -> (r: Result<(), u128>)
    requires
        old(seen).wf(),
    ensures
        final(seen).wf(),
        match r {
            Ok(()) => tree_ids_unique(node@) && node@.ids().disjoint(old(seen)@) && final(seen)@
                =~= old(seen)@.union(node@.ids()),
            Err(_) => !(tree_ids_unique(node@) && node@.ids().disjoint(old(seen)@)),
        },
    decreases *node,
{
    if seen.contains(&node.id) {
        proof {
            assert(node@.ids().contains(node.id));
        }
        return Err(node.id);
    }
    seen.insert(node.id);
    let n_kids = node.children.len();
    let mut k: usize = 0;
    proof {
        crate::document::lemma_forest_view(node.children@);
    }
    while k < n_kids
        invariant
            seen.wf(),
            n_kids == node.children@.len(),
            node@.children.len() == n_kids,
            forall|j: int|
                0 <= j < n_kids ==> node@.children[j] == crate::document::node_view_of(
                    #[trigger] node.children@[j],
                ),
            0 <= k <= n_kids,
            !old(seen)@.contains(node@.id),
            forest_ids_unique(node@.children.take(k as int)),
            !StarlingNodeV::forest_ids(node@.children.take(k as int)).contains(node@.id),
            StarlingNodeV::forest_ids(node@.children.take(k as int)).disjoint(old(seen)@),
            seen@ =~= old(seen)@.insert(node@.id).union(
                StarlingNodeV::forest_ids(node@.children.take(k as int)),
            ),
        decreases n_kids - k,
    {
        let ghost prev_seen = seen@;
        let res = collect_ids(&node.children[k], seen);
        proof {
            assert(node.children@[k as int]@ == node@.children[k as int]);
            assert(node@.children.take(k + 1) =~= node@.children.take(k as int).push(
                node@.children[k as int],
            ));
            StarlingNodeV::lemma_forest_ids_snoc(
                node@.children.take(k as int),
                node@.children[k as int],
            );
        }
        match res {
            Ok(()) => {
                proof {
                    let c = node@.children[k as int];
                    assert(forest_ids_unique(node@.children.take(k + 1))) by {
                        lemma_forest_unique_snoc(node@.children.take(k as int), c);
                    }
                    assert(seen@ =~= old(seen)@.insert(node@.id).union(
                        StarlingNodeV::forest_ids(node@.children.take(k + 1)),
                    ));
                }
            },
            Err(id) => {
                proof {
                    let c = node@.children[k as int];
                    assert(!(tree_ids_unique(c) && c.ids().disjoint(prev_seen)));
                    if tree_ids_unique(node@) && node@.ids().disjoint(old(seen)@) {
                        lemma_forest_unique_prefix(node@.children, k as int);
                        assert(tree_ids_unique(c));
                        assert forall|x: u128| c.ids().contains(x) implies !prev_seen.contains(
                            x,
                        ) by {
                            lemma_forest_ids_prefix(node@.children, k as int, x);
                            assert(node@.ids().contains(x));
                            assert(!StarlingNodeV::forest_ids(
                                node@.children.take(k as int),
                            ).contains(x));
                        }
                        assert(c.ids().disjoint(prev_seen));
                    }
                }
                return Err(id);
            },
        }
        k = k + 1;
    }
    proof {
        assert(node@.children.take(n_kids as int) =~= node@.children);
        assert(node@.ids() == Set::empty().insert(node@.id).union(
            StarlingNodeV::forest_ids(node@.children),
        ));
        assert(node@.ids().disjoint(old(seen)@));
        assert(seen@ =~= old(seen)@.union(node@.ids()));
    }
    Ok(())
}

/// A subtree of a unique-id forest has unique ids itself, contributes to the
/// forest's ids, and is disjoint from the trees before it.
proof fn lemma_forest_unique_prefix(s: Seq<StarlingNodeV>, k: int)
    requires
        0 <= k < s.len(),
        forest_ids_unique(s),
    ensures
        tree_ids_unique(s[k]),
        forall|x: u128|
            s[k].ids().contains(x) ==> StarlingNodeV::forest_ids(s).contains(x),
        forall|x: u128|
            s[k].ids().contains(x) ==> !StarlingNodeV::forest_ids(s.take(k)).contains(x),
    decreases s,
{
    reveal_with_fuel(StarlingNodeV::forest_ids, 3);
    if k == 0 {
        assert(StarlingNodeV::forest_ids(s) == s[0].ids().union(
            StarlingNodeV::forest_ids(s.drop_first()),
        ));
        assert(s.take(0) =~= Seq::<StarlingNodeV>::empty());
    } else {
        lemma_forest_unique_prefix(s.drop_first(), k - 1);
        assert(s.drop_first()[k - 1] == s[k]);
        assert(StarlingNodeV::forest_ids(s) == s[0].ids().union(
            StarlingNodeV::forest_ids(s.drop_first()),
        ));
        assert(s.take(k)[0] == s[0]);
        assert(s.take(k).drop_first() =~= s.drop_first().take(k - 1));
        assert(StarlingNodeV::forest_ids(s.take(k)) == s[0].ids().union(
            StarlingNodeV::forest_ids(s.drop_first().take(k - 1)),
        ));
        assert forall|x: u128| s[k].ids().contains(x) implies !StarlingNodeV::forest_ids(
            s.take(k),
        ).contains(x) by {
            assert(StarlingNodeV::forest_ids(s.drop_first()).contains(x)) by {
                lemma_forest_ids_prefix(s.drop_first(), k - 1, x);
            }
            assert(!s[0].ids().contains(x));
            assert(!StarlingNodeV::forest_ids(s.drop_first().take(k - 1)).contains(x));
        }
    }
}

/// Membership in a forest's ids comes from membership in one tree.
proof fn lemma_forest_ids_prefix(s: Seq<StarlingNodeV>, k: int, x: u128)
    requires
        0 <= k < s.len(),
        s[k].ids().contains(x),
    ensures
        StarlingNodeV::forest_ids(s).contains(x),
    decreases s,
{
    if k == 0 {
    } else {
        lemma_forest_ids_prefix(s.drop_first(), k - 1, x);
        assert(s.drop_first()[k - 1] == s[k]);
    }
}

proof fn lemma_forest_unique_snoc(s: Seq<StarlingNodeV>, c: StarlingNodeV)
    requires
        forest_ids_unique(s),
        tree_ids_unique(c),
        c.ids().disjoint(StarlingNodeV::forest_ids(s)),
    ensures
        forest_ids_unique(s.push(c)),
    decreases s,
{
    reveal_with_fuel(forest_ids_unique, 3);
    if s.len() == 0 {
        assert(s.push(c).drop_first() =~= Seq::<StarlingNodeV>::empty());
        assert(s.push(c)[0] == c);
        assert(StarlingNodeV::forest_ids(Seq::<StarlingNodeV>::empty()) =~= Set::<u128>::empty());
    } else {
        assert(s.push(c)[0] == s[0]);
        assert(s.push(c).drop_first() =~= s.drop_first().push(c));
        assert(StarlingNodeV::forest_ids(s) == s[0].ids().union(
            StarlingNodeV::forest_ids(s.drop_first()),
        ));
        lemma_forest_unique_snoc(s.drop_first(), c);
        StarlingNodeV::lemma_forest_ids_snoc(s.drop_first(), c);
        assert(s[0].ids().disjoint(StarlingNodeV::forest_ids(s.drop_first().push(c))));
    }
}

/// Walks the tree checking tags against the allowed set.
fn check_tags(node: &StarlingNode, allowed: &Vec<String>) -> (r: Result<(), String>)
    ensures
        match r {
            Ok(()) => tree_tags_ok(node@, allowed@),
            Err(_) => !tree_tags_ok(node@, allowed@),
        },
    decreases *node,
{
    let n_tags = node.tags.len();
    let mut i: usize = 0;
    proof {
        assert(node@.tags.len() == n_tags);
        assert forall|j: int| 0 <= j < n_tags implies node@.tags[j] == (
        #[trigger] node.tags@[j])@ by {}
    }
    while i < n_tags
        invariant
            n_tags == node.tags@.len(),
            node@.tags.len() == n_tags,
            forall|j: int| 0 <= j < n_tags ==> node@.tags[j] == (#[trigger] node.tags@[j])@,
            0 <= i <= n_tags,
            forall|j: int|
                0 <= j < i ==> seq_contains_string_view(allowed@, #[trigger] node@.tags[j]),
        decreases n_tags - i,
    {
        if !vec_contains_string(allowed, &node.tags[i]) {
            return Err(node.tags[i].clone());
        }
        i = i + 1;
    }
    let n_kids = node.children.len();
    let mut k: usize = 0;
    proof {
        crate::document::lemma_forest_view(node.children@);
    }
    while k < n_kids
        invariant
            n_kids == node.children@.len(),
            node@.children.len() == n_kids,
            forall|j: int|
                0 <= j < n_kids ==> node@.children[j] == crate::document::node_view_of(
                    #[trigger] node.children@[j],
                ),
            forall|j: int|
                0 <= j < node@.tags.len() ==> seq_contains_string_view(
                    allowed@,
                    #[trigger] node@.tags[j],
                ),
            0 <= k <= n_kids,
            forest_tags_ok(node@.children.take(k as int), allowed@),
        decreases n_kids - k,
    {
        match check_tags(&node.children[k], allowed) {
            Ok(()) => {
                proof {
                    assert(node.children@[k as int]@ == node@.children[k as int]);
                    assert(node@.children.take(k + 1) =~= node@.children.take(k as int).push(
                        node@.children[k as int],
                    ));
                    lemma_forest_tags_snoc(
                        node@.children.take(k as int),
                        node@.children[k as int],
                        allowed@,
                    );
                }
            },
            Err(t) => {
                proof {
                    assert(node.children@[k as int]@ == node@.children[k as int]);
                    if tree_tags_ok(node@, allowed@) {
                        lemma_forest_tags_prefix(node@.children, k as int, allowed@);
                    }
                }
                return Err(t);
            },
        }
        k = k + 1;
    }
    proof {
        assert(node@.children.take(n_kids as int) =~= node@.children);
    }
    Ok(())
}

proof fn lemma_forest_tags_snoc(s: Seq<StarlingNodeV>, c: StarlingNodeV, allowed: Seq<String>)
    requires
        forest_tags_ok(s, allowed),
        tree_tags_ok(c, allowed),
    ensures
        forest_tags_ok(s.push(c), allowed),
    decreases s,
{
    reveal_with_fuel(forest_tags_ok, 3);
    if s.len() == 0 {
        assert(s.push(c).drop_first() =~= Seq::<StarlingNodeV>::empty());
        assert(s.push(c)[0] == c);
    } else {
        assert(s.push(c)[0] == s[0]);
        assert(s.push(c).drop_first() =~= s.drop_first().push(c));
        lemma_forest_tags_snoc(s.drop_first(), c, allowed);
    }
}

proof fn lemma_forest_tags_prefix(s: Seq<StarlingNodeV>, k: int, allowed: Seq<String>)
    requires
        0 <= k < s.len(),
        forest_tags_ok(s, allowed),
    ensures
        tree_tags_ok(s[k], allowed),
    decreases s,
{
    if k > 0 {
        lemma_forest_tags_prefix(s.drop_first(), k - 1, allowed);
        assert(s.drop_first()[k - 1] == s[k]);
    }
}

/// Validates a parsed tree: unique ids everywhere, and allowed tags when tag
/// checking is enabled.
fn validate_tree(root: &StarlingNode, path: &String, config: &Config) -> (r: Result<
    (),
    PathParseError,
>)
    ensures
        match r {
            Ok(()) => parse_accepted(root@, *config),
            Err(e) => !parse_accepted(root@, *config) && (e is InternalDuplicateId
                || e is InvalidTag),
        },
{
    let mut seen: KeySet<u128> = KeySet::new();
    match collect_ids(root, &mut seen) {
        Ok(()) => {},
        Err(id) => {
            proof {
                assert(root@.ids().disjoint(Set::<u128>::empty()));
            }
            return Err(PathParseError::InternalDuplicateId { path: path.clone(), id });
        },
    }
    if config.tags.len() > 0 {
        match check_tags(root, &config.tags) {
            Ok(()) => {},
            Err(tag) => {
                return Err(PathParseError::InvalidTag { path: path.clone(), tag });
            },
        }
    }
    Ok(())
}

/// A single tracked path: the last successfully parsed document, the ids of
/// its nodes, and the last error, if parsing has since failed.
pub struct PathNode {
    /// The path where this node was found, relative to the watch root.
    pub path: String,
    /// The last successfully parsed document at this path, if any.
    pub document: Option<ConnectedDocument>,
    /// The ids of all the nodes at this path.
    pub node_ids: KeySet<u128>,
    /// The latest error, if the last parse attempt failed; any document
    /// present alongside is from the last successful parse.
    pub error: Option<PathParseError>,
}

#[verifier::ext_equal]
pub struct PathNodeV {
    pub path: Seq<char>,
    pub document: Option<ConnectedDocumentV>,
    pub node_ids: Set<u128>,
    pub error: Option<PathParseErrorV>,
}

impl View for PathNode {
    type V = PathNodeV;

    open spec fn view(&self) -> PathNodeV {
        PathNodeV {
            path: self.path@,
            document: match self.document {
                Some(ref d) => Some(d@),
                None => None,
            },
            node_ids: self.node_ids@,
            error: match self.error {
                Some(ref e) => Some(e@),
                None => None,
            },
        }
    }
}

impl Stored for PathNode {
    open spec fn inv(&self) -> bool {
        &&& self.node_ids.wf()
        &&& match self.document {
            Some(ref d) => d.inv() && self.node_ids@ == d@.root.map.dom(),
            None => self.node_ids@ == Set::<u128>::empty(),
        }
    }

    fn duplicate(&self) -> (r: Self)
        ensures
            r@ == self@,
            r.inv(),
    {
        let document = match &self.document {
            Some(d) => Some(d.duplicate()),
            None => None,
        };
        let error = match &self.error {
            Some(e) => Some(e.duplicate()),
            None => None,
        };
        PathNode {
            path: self.path.clone(),
            document,
            node_ids: self.node_ids.duplicate(),
            error,
        }
    }
}

/// The ids present in a connected document.
pub open spec fn doc_ids(d: ConnectedDocumentV) -> Set<u128> {
    d.root.map.dom()
}

/// The targets node `id` connects to.
pub open spec fn doc_targets(d: ConnectedDocumentV, id: u128) -> Set<u128> {
    d.root.map[id].connections.dom()
}

/// Whether the connection from `id` to `to` is marked valid.
pub open spec fn doc_valid(d: ConnectedDocumentV, id: u128, to: u128) -> bool {
    d.root.map[id].connections[to].valid
}

/// The backlinks recorded on node `id`.
pub open spec fn doc_backlinks(d: ConnectedDocumentV, id: u128) -> Set<u128> {
    d.root.map[id].backlinks
}

/// The rendered title of node `id` (rendering format is immaterial for
/// comparisons; Markdown is used as the canonical one).
pub open spec fn doc_title(d: ConnectedDocumentV, id: u128) -> Seq<char> {
    spec_render(d.root.map[id].title, d.root.map[id].connections, Format::Markdown)
}

/// What a single instruction emitted by a diff of `old` against `new` may
/// say: each instruction witnesses a difference between the two parses (or,
/// for a fresh path, a part of the new parse).
pub open spec fn legit_update(
    u: GraphUpdateV,
    old_doc: Option<ConnectedDocumentV>,
    old_ids: Set<u128>,
    new_doc: ConnectedDocumentV,
    path: Seq<char>,
) -> bool {
    match u {
        GraphUpdateV::AddNode { id, path: p } => p == path && doc_ids(new_doc).contains(id)
            && !old_ids.contains(id),
        GraphUpdateV::RemoveNode(id) => old_ids.contains(id) && !doc_ids(new_doc).contains(id),
        GraphUpdateV::RemoveBacklink { on, from } => match old_doc {
            Some(od) => old_ids.contains(from) && doc_targets(od, from).contains(on) && doc_valid(
                od,
                from,
                on,
            ) && (!doc_ids(new_doc).contains(from) || !doc_targets(new_doc, from).contains(on)),
            None => false,
        },
        GraphUpdateV::RemoveInvalidConnection { from, to } => match old_doc {
            Some(od) => old_ids.contains(from) && doc_targets(od, from).contains(to)
                && !doc_valid(od, from, to) && (!doc_ids(new_doc).contains(from)
                || !doc_targets(new_doc, from).contains(to)),
            None => false,
        },
        GraphUpdateV::CheckConnection { from, to } => {
            ||| (doc_ids(new_doc).contains(from) && !old_ids.contains(from) && doc_targets(
                new_doc,
                from,
            ).contains(to))
            ||| (match old_doc {
                Some(od) => old_ids.contains(from) && doc_ids(new_doc).contains(from)
                    && doc_targets(new_doc, from).contains(to) && !doc_targets(
                    od,
                    from,
                ).contains(to),
                None => false,
            })
            ||| (match old_doc {
                Some(od) => old_ids.contains(to) && doc_ids(new_doc).contains(to) && doc_title(
                    od,
                    to,
                ) != doc_title(new_doc, to) && doc_backlinks(od, to).contains(from),
                None => false,
            })
            ||| (match old_doc {
                Some(od) => old_ids.contains(to) && !doc_ids(new_doc).contains(to)
                    && doc_backlinks(od, to).contains(from),
                None => false,
            })
        },
        _ => false,
    }
}

/// What a single instruction emitted for the deletion of a path may say.
pub open spec fn legit_delete(
    u: GraphUpdateV,
    old_doc: Option<ConnectedDocumentV>,
    old_ids: Set<u128>,
    path: Seq<char>,
) -> bool {
    match u {
        GraphUpdateV::DeletePathNode(p) => p == path,
        GraphUpdateV::RemoveNode(id) => old_ids.contains(id),
        GraphUpdateV::RemoveBacklink { on, from } => match old_doc {
            Some(od) => old_ids.contains(from) && doc_targets(od, from).contains(on) && doc_valid(
                od,
                from,
                on,
            ),
            None => false,
        },
        GraphUpdateV::RemoveInvalidConnection { from, to } => match old_doc {
            Some(od) => old_ids.contains(from) && doc_targets(od, from).contains(to)
                && !doc_valid(od, from, to),
            None => false,
        },
        GraphUpdateV::CheckConnection { from, to } => match old_doc {
            Some(od) => old_ids.contains(to) && doc_backlinks(od, to).contains(from),
            None => false,
        },
        _ => false,
    }
}

/// Applying the same parse again changes nothing: when the fresh parse has
/// the same ids, the same targets per node, and the same rendered titles as
/// the recorded one, no instruction can witness a difference, so the diff is
/// empty — and an empty batch leaves the graph untouched and produces no
/// corrective writes.
pub proof fn lemma_unchanged_parse_no_instructions(
    ups: Seq<GraphUpdate>,
    od: ConnectedDocumentV,
    old_ids: Set<u128>,
    nd: ConnectedDocumentV,
    path: Seq<char>,
)
    requires
        forall|j: int|
            0 <= j < ups.len() ==> legit_update((#[trigger] ups[j])@, Some(od), old_ids, nd, path),
        old_ids == doc_ids(nd),
        doc_ids(od) == old_ids,
        forall|id: u128|
            old_ids.contains(id) ==> #[trigger] doc_targets(od, id) == doc_targets(nd, id),
        forall|id: u128|
            old_ids.contains(id) ==> #[trigger] doc_title(od, id) == doc_title(nd, id),
    ensures
        ups.len() == 0,
{
    if ups.len() > 0 {
        assert(legit_update(ups[0]@, Some(od), old_ids, nd, path));
        match ups[0]@ {
            GraphUpdateV::AddNode { id, path: p } => {
                assert(false);
            },
            GraphUpdateV::RemoveNode(id) => {
                assert(false);
            },
            GraphUpdateV::RemoveBacklink { on, from } => {
                assert(doc_targets(od, from) == doc_targets(nd, from));
                assert(false);
            },
            GraphUpdateV::RemoveInvalidConnection { from, to } => {
                assert(doc_targets(od, from) == doc_targets(nd, from));
                assert(false);
            },
            GraphUpdateV::CheckConnection { from, to } => {
                assert(false);
            },
            _ => {
                assert(false);
            },
        }
    }
}

/// Whether the instruction list holds the given instruction.
pub open spec fn ups_contains(s: Seq<GraphUpdate>, u: GraphUpdateV) -> bool {
    exists|i: int| 0 <= i < s.len() && (#[trigger] s[i])@ == u
}

/// Everything [`PathNode::update`] promises of its result: how errors and
/// rejected parses keep the previous state, and, for an accepted parse, that
/// every emitted instruction witnesses a difference between the old and new
/// parse, with the node additions and removals complete and a connection
/// check for every backlink of a title-changed node. `PathNode::new` is the
/// same statement from an empty previous state.
pub open spec fn spec_update_post(
    ups: Seq<GraphUpdate>,
    od: Option<ConnectedDocumentV>,
    old_ids: Set<u128>,
    new_pn: PathNodeV,
    path: Seq<char>,
    contents: Result<StarlingDocument, PathParseError>,
    config: Config,
) -> bool {
    match contents {
        Err(e) => new_pn.document == od && new_pn.node_ids == old_ids && new_pn.error == Some(e@)
            && ups.len() == 0,
        Ok(doc) => {
            if !parse_accepted(doc@.root, config) {
                &&& new_pn.document == od
                &&& new_pn.node_ids == old_ids
                &&& (match new_pn.error {
                    Some(ev) => ev is InternalDuplicateId || ev is InvalidTag,
                    None => false,
                })
                &&& ups.len() == 0
            } else {
                &&& new_pn.error is None
                &&& (match new_pn.document {
                    Some(nd) => {
                        &&& nd.root.map.dom() == doc@.root.ids()
                        &&& new_pn.node_ids == doc@.root.ids()
                        &&& (forall|j: int|
                            0 <= j < ups.len() ==> legit_update(
                                (#[trigger] ups[j])@,
                                od,
                                old_ids,
                                nd,
                                path,
                            ))
                        &&& (forall|id: u128|
                            doc@.root.ids().contains(id) && !old_ids.contains(id)
                                ==> ups_contains(ups, (GraphUpdateV::AddNode { id, path })))
                        &&& (forall|id: u128|
                            old_ids.contains(id) && !doc@.root.ids().contains(id)
                                ==> ups_contains(ups, GraphUpdateV::RemoveNode(id)))
                        &&& (forall|t: u128, b: u128|
                            od is Some && old_ids.contains(t) && nd.root.map.dom().contains(t)
                                && doc_title(od.unwrap(), t) != doc_title(nd, t)
                                && #[trigger] doc_backlinks(od.unwrap(), t).contains(b)
                                ==> ups_contains(
                                ups,
                                (GraphUpdateV::CheckConnection { from: b, to: t }),
                            ))
                        &&& (forall|id: u128, b: u128|
                            od is Some && old_ids.contains(id) && !nd.root.map.dom().contains(id)
                                && #[trigger] doc_backlinks(od.unwrap(), id).contains(b)
                                ==> ups_contains(
                                ups,
                                (GraphUpdateV::CheckConnection { from: b, to: id }),
                            ))
                        &&& (forall|id: u128, t: u128|
                            nd.root.map.dom().contains(id) && !old_ids.contains(id)
                                && doc_targets(nd, id).contains(t) ==> #[trigger] ups_contains(
                                ups,
                                (GraphUpdateV::CheckConnection { from: id, to: t }),
                            ))
                    },
                    None => false,
                })
            }
        },
    }
}

/// Everything [`PathNode::delete`] promises of its result: removal records
/// for every connection of every node, a check for every inbound link, a
/// removal for every node, and the path deletion last.
pub open spec fn spec_delete_post(
    ups: Seq<GraphUpdate>,
    od: Option<ConnectedDocumentV>,
    old_ids: Set<u128>,
    path: Seq<char>,
) -> bool {
    &&& ups.len() >= 1
    &&& ups[ups.len() - 1]@ == GraphUpdateV::DeletePathNode(path)
    &&& (forall|j: int|
        0 <= j < ups.len() ==> legit_delete((#[trigger] ups[j])@, od, old_ids, path))
    &&& (forall|id: u128| #[trigger]
        old_ids.contains(id) ==> ups_contains(ups, GraphUpdateV::RemoveNode(id)))
    &&& (forall|id: u128, t: u128|
        od is Some && old_ids.contains(id) && #[trigger] doc_targets(od.unwrap(), id).contains(t)
            ==> (doc_valid(od.unwrap(), id, t) ==> ups_contains(
            ups,
            (GraphUpdateV::RemoveBacklink { on: t, from: id }),
        )) && (!doc_valid(od.unwrap(), id, t) ==> ups_contains(
            ups,
            (GraphUpdateV::RemoveInvalidConnection { from: id, to: t }),
        )))
    &&& (forall|id: u128, b: u128|
        od is Some && old_ids.contains(id) && #[trigger] doc_backlinks(od.unwrap(), id).contains(
            b,
        ) ==> ups_contains(ups, (GraphUpdateV::CheckConnection { from: b, to: id })))
}

impl PathNode {
    /// Gets the path for this [`PathNode`].
    pub fn path(&self) -> (r: String)
        ensures
            r@ == self@.path,
    {
        self.path.clone()
    }

    /// Gets the root document of this path, if there is one.
    pub fn document(&self) -> (r: Option<&ConnectedDocument>)
        requires
            self.inv(),
        ensures
            match r {
                Some(d) => self@.document == Some(d@) && d.inv(),
                None => self@.document is None,
            },
    {
        match &self.document {
            Some(d) => Some(d),
            None => None,
        }
    }

    /// The ids of all the nodes in this path.
    pub fn ids(&self) -> (r: Vec<u128>)
        requires
            self.inv(),
        ensures
            forall|i: int| 0 <= i < r@.len() ==> self@.node_ids.contains(#[trigger] r@[i]),
            forall|id: u128| #[trigger]
                self@.node_ids.contains(id) ==> exists|i: int| 0 <= i < r@.len() && r@[i] == id,
            forall|i: int, j: int| 0 <= i < j < r@.len() ==> r@[i] != r@[j],
    {
        proof {
            self.node_ids.lemma_view_props();
        }
        let n = self.node_ids.num_elems();
        let mut r: Vec<u128> = Vec::new();
        let mut i: usize = 0;
        while i < n
            invariant
                self.inv(),
                n == self.node_ids.eseq().len(),
                0 <= i <= n,
                r@.len() == i,
                forall|j: int| 0 <= j < i ==> r@[j] == self.node_ids.eseq()[j],
            decreases n - i,
        {
            r.push(*self.node_ids.elem_at(i));
            i = i + 1;
        }
        proof {
            self.node_ids.lemma_view_props();
            assert forall|i2: int|
                0 <= i2 < r@.len() implies self@.node_ids.contains(#[trigger] r@[i2]) by {
                assert(self.node_ids.eseq().contains(self.node_ids.eseq()[i2]));
            }
            assert forall|id: u128| #[trigger]
                self@.node_ids.contains(id) implies exists|i2: int|
                0 <= i2 < r@.len() && r@[i2] == id by {
                assert(self.node_ids.eseq().contains(id));
                let j = choose|j: int|
                    0 <= j < self.node_ids.eseq().len() && self.node_ids.eseq()[j] == id;
                assert(r@[j] == id);
            }
        }
        r
    }

    /// The rendered title of the node with the given id, if present.
    pub fn display_title(&self, id: u128, conn_format: Format) -> (r: Option<String>)
        requires
            self.inv(),
        ensures
            match r {
                Some(t) => (match self@.document {
                    Some(d) => d.root.map.dom().contains(id) && t@ == spec_render(
                        d.root.map[id].title,
                        d.root.map[id].connections,
                        conn_format,
                    ),
                    None => false,
                }),
                None => (match self@.document {
                    Some(d) => !d.root.map.dom().contains(id),
                    None => true,
                }),
            },
    {
        match &self.document {
            Some(d) => match d.root.node(&id) {
                Some(scn) => Some(scn.title(conn_format)),
                None => None,
            },
            None => None,
        }
    }

    /// Adds a backlink to the node with id `on`, from the node with id
    /// `from`. Absent documents or nodes do nothing.
    pub fn add_backlink(&mut self, on: u128, from: u128)
        requires
            old(self).inv(),
        ensures
            final(self).inv(),
            final(self)@.path == old(self)@.path,
            final(self)@.node_ids == old(self)@.node_ids,
            final(self)@.error == old(self)@.error,
            match old(self)@.document {
                Some(od) => final(self)@.document == Some(
                    (ConnectedDocumentV {
                        root: (crate::connection::ConnectedNodeV {
                            node: od.root.node,
                            map: if od.root.map.dom().contains(on) {
                                od.root.map.insert(
                                    on,
                                    (SingleConnectedNodeV {
                                        backlinks: od.root.map[on].backlinks.insert(from),
                                        ..od.root.map[on]
                                    }),
                                )
                            } else {
                                od.root.map
                            },
                        }),
                        attributes: od.attributes,
                    }),
                ),
                None => final(self)@.document is None,
            },
    {
        match &mut self.document {
            Some(d) => {
                d.root.add_backlink(on, from);
                proof {
                    assert(d@.root.map.dom() =~= old(self)@.document.unwrap().root.map.dom());
                }
            },
            None => {},
        }
    }

    /// Removes the backlink from `from` on the node with id `on`, if
    /// everything involved exists.
    pub fn remove_backlink(&mut self, on: u128, from: u128)
        requires
            old(self).inv(),
        ensures
            final(self).inv(),
            final(self)@.path == old(self)@.path,
            final(self)@.node_ids == old(self)@.node_ids,
            final(self)@.error == old(self)@.error,
            match old(self)@.document {
                Some(od) => final(self)@.document == Some(
                    (ConnectedDocumentV {
                        root: (crate::connection::ConnectedNodeV {
                            node: od.root.node,
                            map: if od.root.map.dom().contains(on) {
                                od.root.map.insert(
                                    on,
                                    (SingleConnectedNodeV {
                                        backlinks: od.root.map[on].backlinks.remove(from),
                                        ..od.root.map[on]
                                    }),
                                )
                            } else {
                                od.root.map
                            },
                        }),
                        attributes: od.attributes,
                    }),
                ),
                None => final(self)@.document is None,
            },
    {
        match &mut self.document {
            Some(d) => {
                d.root.remove_backlink(on, from);
                proof {
                    assert(d@.root.map.dom() =~= old(self)@.document.unwrap().root.map.dom());
                }
            },
            None => {},
        }
    }

    /// Marks the connection from `on` to `to` invalid, if it exists.
    pub fn invalidate_connection(&mut self, on: u128, to: u128)
        requires
            old(self).inv(),
        ensures
            final(self).inv(),
            final(self)@.path == old(self)@.path,
            final(self)@.node_ids == old(self)@.node_ids,
            final(self)@.error == old(self)@.error,
            match old(self)@.document {
                Some(od) => (match final(self)@.document {
                    Some(fd) => fd.attributes == od.attributes && fd.root.node == od.root.node
                        && fd.root.map == (if od.root.map.dom().contains(on) {
                        od.root.map.insert(
                            on,
                            (SingleConnectedNodeV {
                                connections: if od.root.map[on].connections.dom().contains(to) {
                                    od.root.map[on].connections.insert(
                                        to,
                                        (ParallelConnectionsV {
                                            valid: false,
                                            variants: od.root.map[on].connections[to].variants,
                                        }),
                                    )
                                } else {
                                    od.root.map[on].connections
                                },
                                ..od.root.map[on]
                            }),
                        )
                    } else {
                        od.root.map
                    }),
                    None => false,
                }),
                None => final(self)@.document is None,
            },
    {
        match &mut self.document {
            Some(d) => {
                d.root.invalidate_connection(on, to);
                proof {
                    assert(d@.root.map.dom() =~= old(self)@.document.unwrap().root.map.dom());
                }
            },
            None => {},
        }
    }

    /// Renders the connection from `from` to `to` valid and updates its
    /// variants' titles to the provided string, if everything involved
    /// exists. This does not *check* the connection; it just sets it.
    pub fn validate_connection(&mut self, from: u128, to: u128, to_title: &String)
        requires
            old(self).inv(),
        ensures
            final(self).inv(),
            final(self)@.path == old(self)@.path,
            final(self)@.node_ids == old(self)@.node_ids,
            final(self)@.error == old(self)@.error,
            match old(self)@.document {
                Some(od) => (match final(self)@.document {
                    Some(fd) => fd.attributes == od.attributes && fd.root.node == od.root.node
                        && fd.root.map == (if od.root.map.dom().contains(from) {
                        od.root.map.insert(
                            from,
                            (SingleConnectedNodeV {
                                connections: if od.root.map[from].connections.dom().contains(
                                    to,
                                ) {
                                    od.root.map[from].connections.insert(
                                        to,
                                        (ParallelConnectionsV {
                                            valid: true,
                                            variants: Seq::new(
                                                od.root.map[from].connections[to].variants.len(),
                                                |i: int|
                                                    crate::connection::ConnectionV {
                                                        ty: od.root.map[from].connections[
                                                            to
                                                        ].variants[i].ty,
                                                        title: to_title@,
                                                    },
                                            ),
                                        }),
                                    )
                                } else {
                                    od.root.map[from].connections
                                },
                                ..od.root.map[from]
                            }),
                        )
                    } else {
                        od.root.map
                    }),
                    None => false,
                }),
                None => final(self)@.document is None,
            },
    {
        match &mut self.document {
            Some(d) => {
                d.root.validate_connection(from, to, to_title);
                proof {
                    assert(d@.root.map.dom() =~= old(self)@.document.unwrap().root.map.dom());
                }
            },
            None => {},
        }
    }
}

pub broadcast proof fn lemma_ups_contains_push(s: Seq<GraphUpdate>, u: GraphUpdate, x: GraphUpdateV)
    requires
        ups_contains(s, x),
    ensures
        #[trigger] ups_contains(s.push(u), x),
{
    let i = choose|i: int| 0 <= i < s.len() && (#[trigger] s[i])@ == x;
    assert(s.push(u)[i]@ == x);
}

proof fn lemma_legit_push(
    s: Seq<GraphUpdate>,
    u: GraphUpdate,
    od: Option<ConnectedDocumentV>,
    oi: Set<u128>,
    nd: ConnectedDocumentV,
    p: Seq<char>,
)
    requires
        forall|j: int| 0 <= j < s.len() ==> legit_update((#[trigger] s[j])@, od, oi, nd, p),
        legit_update(u@, od, oi, nd, p),
    ensures
        forall|j: int|
            0 <= j < s.push(u).len() ==> legit_update((#[trigger] s.push(u)[j])@, od, oi, nd, p),
{
    assert forall|j: int|
        0 <= j < s.push(u).len() implies legit_update(
        (#[trigger] s.push(u)[j])@,
        od,
        oi,
        nd,
        p,
    ) by {
        if j < s.len() {
            assert(s.push(u)[j] == s[j]);
        } else {
            assert(s.push(u)[j] == u);
        }
    }
}

impl PathNode {
    /// Updates this [`PathNode`] for a change to the path: the new (possibly
    /// renamed) path, and the result of reading and parsing its contents. A
    /// read or parse failure keeps the last good document and records the
    /// error. A successful parse is validated, diffed against the previous
    /// state, and turned into graph instructions: nodes entering and leaving
    /// this path, connections to check, and stale backlink or
    /// invalid-connection records to drop. Every emitted instruction
    /// witnesses a difference between the two parses, so an unchanged parse
    /// emits nothing.
    #[verifier::loop_isolation(false)]
    pub fn update(
        &self,
        path: String,
        contents: Result<StarlingDocument, PathParseError>,
        config: &Config,
    ) -> (r: (PathNode, Vec<GraphUpdate>))
        requires
            self.inv(),
            config.valid(),
        ensures
            r.0.inv(),
            r.0@.path == path@,
            spec_update_post(
                r.1@,
                self@.document,
                self@.node_ids,
                r.0@,
                path@,
                contents,
                *config,
            ),
    {
        broadcast use lemma_ups_contains_push;

        let document = match contents {
            Err(err) => {
                let dup_doc = match &self.document {
                    Some(d) => Some(d.duplicate()),
                    None => None,
                };
                return (
                    PathNode {
                        path,
                        document: dup_doc,
                        node_ids: self.node_ids.duplicate(),
                        error: Some(err),
                    },
                    Vec::new(),
                );
            },
            Ok(document) => document,
        };
        match validate_tree(&document.root, &path, config) {
            Err(e) => {
                let dup_doc = match &self.document {
                    Some(d) => Some(d.duplicate()),
                    None => None,
                };
                return (
                    PathNode {
                        path,
                        document: dup_doc,
                        node_ids: self.node_ids.duplicate(),
                        error: Some(e),
                    },
                    Vec::new(),
                );
            },
            Ok(()) => {},
        }
        let format = path_format(&path);
        let mut connected = ConnectedDocument::from_document(&document, format, config);
        let ghost base_dom = connected@.root.map.dom();
        let ghost od = self@.document;
        let ghost old_ids = self@.node_ids;
        let new_id_vec = connected.root.ids();
        // First, carry the previous state over onto the fresh parse: for
        // every retained node, connections to targets it already had inherit
        // their validity, and its backlinks are transferred.
        match &self.document {
            Some(old_doc) => {
                let nn = new_id_vec.len();
                let mut i: usize = 0;
                while i < nn
                    invariant
                        connected.inv(),
                        0 <= i <= nn,
                        forall|q: u128|
                            connected@.root.map.dom().contains(q) <==> base_dom.contains(q),
                    decreases nn - i,
                {
                    let nid = new_id_vec[i];
                    if self.node_ids.contains(&nid) {
                        match old_doc.root.node(&nid) {
                            Some(old_scn) => {
                                let old_conns = old_scn.connections();
                                let nc = old_conns.len();
                                let mut c: usize = 0;
                                while c < nc
                                    invariant
                                        connected.inv(),
                                        0 <= c <= nc,
                                        forall|q: u128|
                                            connected@.root.map.dom().contains(q)
                                                <==> base_dom.contains(q),
                                    decreases nc - c,
                                {
                                    let (t, valid) = old_conns[c];
                                    let ghost before = connected@;
                                    connected.root.set_connection_validity(nid, t, valid);
                                    proof {
                                        assert forall|q: u128|
                                            connected@.root.map.dom().contains(q)
                                                <==> base_dom.contains(q) by {
                                            if q == nid {
                                                assert(before.root.map.dom().contains(q)
                                                    ==> connected@.root.map.dom().contains(q));
                                            }
                                        }
                                    }
                                    c = c + 1;
                                }
                                let bls = old_scn.backlinks();
                                let nb = bls.len();
                                let mut b: usize = 0;
                                while b < nb
                                    invariant
                                        connected.inv(),
                                        0 <= b <= nb,
                                        forall|q: u128|
                                            connected@.root.map.dom().contains(q)
                                                <==> base_dom.contains(q),
                                    decreases nb - b,
                                {
                                    let ghost before = connected@;
                                    connected.root.add_backlink(nid, bls[b]);
                                    proof {
                                        assert forall|q: u128|
                                            connected@.root.map.dom().contains(q)
                                                <==> base_dom.contains(q) by {
                                            if q == nid {
                                                assert(before.root.map.dom().contains(q)
                                                    ==> connected@.root.map.dom().contains(q));
                                            }
                                        }
                                    }
                                    b = b + 1;
                                }
                            },
                            None => {},
                        }
                    }
                    i = i + 1;
                }
            },
            None => {},
        }
        // From here the new document is final; every instruction below is
        // judged against it.
        let ghost nd = connected@;
        proof {
            assert(nd.root.map.dom() =~= base_dom);
        }
        let mut updates: Vec<GraphUpdate> = Vec::new();
        match &self.document {
            Some(old_doc) => {
                // Nodes that have disappeared from this path: undo their
                // outbound records, invalidate inbound links, remove them.
                let old_id_vec = old_doc.root.ids();
                let no = old_id_vec.len();
                let mut i: usize = 0;
                while i < no
                    invariant
                        connected.inv(),
                        connected@ == nd,
                        od == Some(old_doc@),
                        old_ids == old_doc@.root.map.dom(),
                        0 <= i <= no,
                        forall|j: int|
                            0 <= j < updates@.len() ==> legit_update(
                                (#[trigger] updates@[j])@,
                                od,
                                old_ids,
                                nd,
                                path@,
                            ),
                        forall|j2: int|
                            0 <= j2 < i && !nd.root.map.dom().contains(
                                #[trigger] old_id_vec@[j2],
                            ) ==> ups_contains(
                                updates@,
                                GraphUpdateV::RemoveNode(old_id_vec@[j2]),
                            ),
                        forall|j2: int, bx: u128|
                            0 <= j2 < i && !nd.root.map.dom().contains(old_id_vec@[j2])
                                && #[trigger] doc_backlinks(old_doc@, old_id_vec@[j2]).contains(
                                bx,
                            ) ==> ups_contains(
                                updates@,
                                (GraphUpdateV::CheckConnection {
                                    from: bx,
                                    to: old_id_vec@[j2],
                                }),
                            ),
                    decreases no - i,
                {
                    let rid = old_id_vec[i];
                    let still = match connected.root.node(&rid) {
                        Some(_) => true,
                        None => false,
                    };
                    if !still {
                        match old_doc.root.node(&rid) {
                            Some(removed_scn) => {
                                // Outbound connections: drop the backlink for
                                // valid ones, the invalid-connection record
                                // for the rest.
                                let conns = removed_scn.connections();
                                let nc = conns.len();
                                let mut c: usize = 0;
                                while c < nc
                                    invariant
                                        0 <= c <= nc,
                                        forall|j: int|
                                            0 <= j < updates@.len() ==> legit_update(
                                                (#[trigger] updates@[j])@,
                                                od,
                                                old_ids,
                                                nd,
                                                path@,
                                            ),
                                        forall|j2: int|
                                            0 <= j2 < i && !nd.root.map.dom().contains(
                                                #[trigger] old_id_vec@[j2],
                                            ) ==> ups_contains(
                                                updates@,
                                                GraphUpdateV::RemoveNode(old_id_vec@[j2]),
                                            ),
                                        forall|j2: int, bx: u128|
                                            0 <= j2 < i && !nd.root.map.dom().contains(
                                                old_id_vec@[j2],
                                            ) && #[trigger] doc_backlinks(
                                                old_doc@,
                                                old_id_vec@[j2],
                                            ).contains(bx) ==> ups_contains(
                                                updates@,
                                                (GraphUpdateV::CheckConnection {
                                                    from: bx,
                                                    to: old_id_vec@[j2],
                                                }),
                                            ),
                                    decreases nc - c,
                                {
                                    let (t, valid) = conns[c];
                                    let ghost ub = updates@;
                                    let u = if valid {
                                        GraphUpdate::RemoveBacklink { on: t, from: rid }
                                    } else {
                                        GraphUpdate::RemoveInvalidConnection { from: rid, to: t }
                                    };
                                    proof {
                                        lemma_legit_push(ub, u, od, old_ids, nd, path@);
                                    }
                                    updates.push(u);
                                    c = c + 1;
                                }
                                // Inbound links become invalid: check them so
                                // they are recorded as such.
                                let bls = removed_scn.backlinks();
                                let nb = bls.len();
                                let mut b: usize = 0;
                                while b < nb
                                    invariant
                                        0 <= b <= nb,
                                        forall|j: int|
                                            0 <= j < updates@.len() ==> legit_update(
                                                (#[trigger] updates@[j])@,
                                                od,
                                                old_ids,
                                                nd,
                                                path@,
                                            ),
                                        forall|j2: int|
                                            0 <= j2 < i && !nd.root.map.dom().contains(
                                                #[trigger] old_id_vec@[j2],
                                            ) ==> ups_contains(
                                                updates@,
                                                GraphUpdateV::RemoveNode(old_id_vec@[j2]),
                                            ),
                                        forall|j2: int, bx: u128|
                                            0 <= j2 < i && !nd.root.map.dom().contains(
                                                old_id_vec@[j2],
                                            ) && #[trigger] doc_backlinks(
                                                old_doc@,
                                                old_id_vec@[j2],
                                            ).contains(bx) ==> ups_contains(
                                                updates@,
                                                (GraphUpdateV::CheckConnection {
                                                    from: bx,
                                                    to: old_id_vec@[j2],
                                                }),
                                            ),
                                        forall|bj: int|
                                            0 <= bj < b ==> ups_contains(
                                                updates@,
                                                (GraphUpdateV::CheckConnection {
                                                    from: bls@[bj],
                                                    to: rid,
                                                }),
                                            ),
                                    decreases nb - b,
                                {
                                    let ghost ub = updates@;
                                    let u = GraphUpdate::CheckConnection {
                                        from: bls[b],
                                        to: rid,
                                    };
                                    proof {
                                        lemma_legit_push(ub, u, od, old_ids, nd, path@);
                                    }
                                    updates.push(u);
                                    proof {
                                        assert(updates@[updates@.len() - 1]@
                                            == (GraphUpdateV::CheckConnection {
                                            from: bls@[b as int],
                                            to: rid,
                                        }));
                                    }
                                    b = b + 1;
                                }
                                proof {
                                    assert forall|bx: u128| #[trigger]
                                        doc_backlinks(old_doc@, rid).contains(
                                        bx,
                                    ) implies ups_contains(
                                        updates@,
                                        (GraphUpdateV::CheckConnection { from: bx, to: rid }),
                                    ) by {
                                        let bj = choose|bj: int|
                                            0 <= bj < bls@.len() && bls@[bj] == bx;
                                        assert(ups_contains(
                                            updates@,
                                            (GraphUpdateV::CheckConnection {
                                                from: bls@[bj],
                                                to: rid,
                                            }),
                                        ));
                                    }
                                }
                            },
                            None => {},
                        }
                        let ghost ub = updates@;
                        let u = GraphUpdate::RemoveNode(rid);
                        proof {
                            lemma_legit_push(ub, u, od, old_ids, nd, path@);
                        }
                        updates.push(u);
                        proof {
                            assert(updates@[updates@.len() - 1]@ == GraphUpdateV::RemoveNode(
                                rid,
                            ));
                            assert(ups_contains(updates@, GraphUpdateV::RemoveNode(rid)));
                        }
                    }
                    proof {
                        assert forall|j2: int, bx: u128|
                            0 <= j2 < i + 1 && !nd.root.map.dom().contains(old_id_vec@[j2])
                                && #[trigger] doc_backlinks(old_doc@, old_id_vec@[j2]).contains(
                                bx,
                            ) implies ups_contains(
                            updates@,
                            (GraphUpdateV::CheckConnection { from: bx, to: old_id_vec@[j2] }),
                        ) by {}
                    }
                    i = i + 1;
                }
                // Nodes that are new to this path, and nodes that stayed.
                let nn = new_id_vec.len();
                let mut i2: usize = 0;
                while i2 < nn
                    invariant
                        connected.inv(),
                        connected@ == nd,
                        od == Some(old_doc@),
                        old_ids == old_doc@.root.map.dom(),
                        0 <= i2 <= nn,
                        forall|j: int|
                            0 <= j < updates@.len() ==> legit_update(
                                (#[trigger] updates@[j])@,
                                od,
                                old_ids,
                                nd,
                                path@,
                            ),
                        forall|j2: int|
                            0 <= j2 < old_id_vec@.len() && !nd.root.map.dom().contains(
                                #[trigger] old_id_vec@[j2],
                            ) ==> ups_contains(
                                updates@,
                                GraphUpdateV::RemoveNode(old_id_vec@[j2]),
                            ),
                        forall|j2: int, bx: u128|
                            0 <= j2 < old_id_vec@.len() && !nd.root.map.dom().contains(
                                old_id_vec@[j2],
                            ) && #[trigger] doc_backlinks(old_doc@, old_id_vec@[j2]).contains(
                                bx,
                            ) ==> ups_contains(
                                updates@,
                                (GraphUpdateV::CheckConnection {
                                    from: bx,
                                    to: old_id_vec@[j2],
                                }),
                            ),
                        forall|j2: int|
                            0 <= j2 < i2 && !old_ids.contains(#[trigger] new_id_vec@[j2])
                                ==> ups_contains(
                                updates@,
                                (GraphUpdateV::AddNode { id: new_id_vec@[j2], path: path@ }),
                            ),
                        forall|j2: int, tx: u128|
                            0 <= j2 < i2 && !old_ids.contains(new_id_vec@[j2]) && doc_targets(
                                nd,
                                new_id_vec@[j2],
                            ).contains(tx) ==> #[trigger] ups_contains(
                                updates@,
                                (GraphUpdateV::CheckConnection {
                                    from: new_id_vec@[j2],
                                    to: tx,
                                }),
                            ),
                        forall|j2: int, b: u128|
                            #![trigger doc_backlinks(old_doc@, new_id_vec@[j2]).contains(b)]
                            0 <= j2 < i2 && old_ids.contains(new_id_vec@[j2]) && doc_title(
                                old_doc@,
                                new_id_vec@[j2],
                            ) != doc_title(nd, new_id_vec@[j2]) && doc_backlinks(
                                old_doc@,
                                new_id_vec@[j2],
                            ).contains(b) ==> ups_contains(
                                updates@,
                                (GraphUpdateV::CheckConnection {
                                    from: b,
                                    to: new_id_vec@[j2],
                                }),
                            ),
                    decreases nn - i2,
                {
                    let nid = new_id_vec[i2];
                    if !self.node_ids.contains(&nid) {
                        let ghost ub = updates@;
                        let u = GraphUpdate::AddNode { id: nid, path: path.clone() };
                        proof {
                            lemma_legit_push(ub, u, od, old_ids, nd, path@);
                        }
                        updates.push(u);
                        proof {
                            assert(updates@[updates@.len() - 1]@ == (GraphUpdateV::AddNode {
                                id: nid,
                                path: path@,
                            }));
                            assert(ups_contains(
                                updates@,
                                (GraphUpdateV::AddNode { id: nid, path: path@ }),
                            ));
                        }
                        // All of the new node's connections need checking.
                        match connected.root.node(&nid) {
                            Some(new_scn) => {
                                let conns = new_scn.connections();
                                let nc = conns.len();
                                let mut c: usize = 0;
                                while c < nc
                                    invariant
                                        new_scn@ == nd.root.map[nid as u128],
                                        nd.root.map.dom().contains(nid),
                                        forall|a: int|
                                            0 <= a < conns@.len() ==> nd.root.map[
                                                nid as u128
                                            ].connections.dom().contains(
                                                (#[trigger] conns@[a]).0,
                                            ),
                                        forall|tx: u128| #[trigger]
                                            nd.root.map[nid as u128].connections.dom().contains(
                                                tx,
                                            ) ==> exists|a: int|
                                                0 <= a < conns@.len() && (#[trigger] conns@[a]).0
                                                    == tx,
                                        forall|cb: int|
                                            0 <= cb < c ==> ups_contains(
                                                updates@,
                                                (GraphUpdateV::CheckConnection {
                                                    from: nid,
                                                    to: (#[trigger] conns@[cb]).0,
                                                }),
                                            ),
                                        0 <= c <= nc,
                                        forall|j: int|
                                            0 <= j < updates@.len() ==> legit_update(
                                                (#[trigger] updates@[j])@,
                                                od,
                                                old_ids,
                                                nd,
                                                path@,
                                            ),
                                        forall|j2: int|
                                            0 <= j2 < old_id_vec@.len() && !nd.root.map.dom()
                                                .contains(#[trigger] old_id_vec@[j2])
                                                ==> ups_contains(
                                                updates@,
                                                GraphUpdateV::RemoveNode(old_id_vec@[j2]),
                                            ),
                                        forall|j2: int, bx: u128|
                                            0 <= j2 < old_id_vec@.len() && !nd.root.map.dom()
                                                .contains(old_id_vec@[j2])
                                                && #[trigger] doc_backlinks(
                                                old_doc@,
                                                old_id_vec@[j2],
                                            ).contains(bx) ==> ups_contains(
                                                updates@,
                                                (GraphUpdateV::CheckConnection {
                                                    from: bx,
                                                    to: old_id_vec@[j2],
                                                }),
                                            ),
                                        forall|j2: int, tx: u128|
                                            0 <= j2 < i2 && !old_ids.contains(new_id_vec@[j2])
                                                && doc_targets(nd, new_id_vec@[j2]).contains(
                                                tx,
                                            ) ==> #[trigger] ups_contains(
                                                updates@,
                                                (GraphUpdateV::CheckConnection {
                                                    from: new_id_vec@[j2],
                                                    to: tx,
                                                }),
                                            ),
                                        forall|j2: int|
                                            0 <= j2 <= i2 && j2 < nn && !old_ids.contains(
                                                #[trigger] new_id_vec@[j2],
                                            ) ==> ups_contains(
                                                updates@,
                                                (GraphUpdateV::AddNode {
                                                    id: new_id_vec@[j2],
                                                    path: path@,
                                                }),
                                            ),
                                        forall|j2: int, b: u128|
                                            #![trigger doc_backlinks(old_doc@, new_id_vec@[j2]).contains(b)]
                                            0 <= j2 < i2 && old_ids.contains(new_id_vec@[j2])
                                                && doc_title(old_doc@, new_id_vec@[j2])
                                                != doc_title(nd, new_id_vec@[j2])
                                                && doc_backlinks(
                                                old_doc@,
                                                new_id_vec@[j2],
                                            ).contains(b) ==> ups_contains(
                                                updates@,
                                                (GraphUpdateV::CheckConnection {
                                                    from: b,
                                                    to: new_id_vec@[j2],
                                                }),
                                            ),
                                    decreases nc - c,
                                {
                                    let (t, _valid) = conns[c];
                                    let ghost ub = updates@;
                                    let u = GraphUpdate::CheckConnection { from: nid, to: t };
                                    proof {
                                        lemma_legit_push(ub, u, od, old_ids, nd, path@);
                                    }
                                    updates.push(u);
                                    proof {
                                        assert(updates@[updates@.len() - 1]@
                                            == (GraphUpdateV::CheckConnection {
                                            from: nid,
                                            to: conns@[c as int].0,
                                        }));
                                    }
                                    c = c + 1;
                                }
                                proof {
                                    assert forall|tx: u128|
                                        doc_targets(nd, nid).contains(tx) implies ups_contains(
                                        updates@,
                                        (GraphUpdateV::CheckConnection { from: nid, to: tx }),
                                    ) by {
                                        let a = choose|a: int|
                                            0 <= a < conns@.len() && (#[trigger] conns@[a]).0
                                                == tx;
                                        assert(ups_contains(
                                            updates@,
                                            (GraphUpdateV::CheckConnection {
                                                from: nid,
                                                to: conns@[a].0,
                                            }),
                                        ));
                                    }
                                }
                            },
                            None => {},
                        }
                    } else {
                        match old_doc.root.node(&nid) {
                            Some(old_scn) => {
                                // New targets need explicit checks; targets
                                // kept their inherited validity above.
                                let new_conns = match connected.root.node(&nid) {
                                    Some(new_scn) => new_scn.connections(),
                                    None => Vec::new(),
                                };
                                let nc = new_conns.len();
                                let mut c: usize = 0;
                                while c < nc
                                    invariant
                                        0 <= c <= nc,
                                        forall|j: int|
                                            0 <= j < updates@.len() ==> legit_update(
                                                (#[trigger] updates@[j])@,
                                                od,
                                                old_ids,
                                                nd,
                                                path@,
                                            ),
                                        forall|j2: int|
                                            0 <= j2 < old_id_vec@.len() && !nd.root.map.dom()
                                                .contains(#[trigger] old_id_vec@[j2])
                                                ==> ups_contains(
                                                updates@,
                                                GraphUpdateV::RemoveNode(old_id_vec@[j2]),
                                            ),
                                        forall|j2: int, bx: u128|
                                            0 <= j2 < old_id_vec@.len() && !nd.root.map.dom()
                                                .contains(old_id_vec@[j2])
                                                && #[trigger] doc_backlinks(
                                                old_doc@,
                                                old_id_vec@[j2],
                                            ).contains(bx) ==> ups_contains(
                                                updates@,
                                                (GraphUpdateV::CheckConnection {
                                                    from: bx,
                                                    to: old_id_vec@[j2],
                                                }),
                                            ),
                                        forall|j2: int, tx: u128|
                                            0 <= j2 < i2 && !old_ids.contains(new_id_vec@[j2])
                                                && doc_targets(nd, new_id_vec@[j2]).contains(
                                                tx,
                                            ) ==> #[trigger] ups_contains(
                                                updates@,
                                                (GraphUpdateV::CheckConnection {
                                                    from: new_id_vec@[j2],
                                                    to: tx,
                                                }),
                                            ),
                                        forall|j2: int|
                                            0 <= j2 < i2 && !old_ids.contains(
                                                #[trigger] new_id_vec@[j2],
                                            ) ==> ups_contains(
                                                updates@,
                                                (GraphUpdateV::AddNode {
                                                    id: new_id_vec@[j2],
                                                    path: path@,
                                                }),
                                            ),
                                        forall|j2: int, b: u128|
                                            #![trigger doc_backlinks(old_doc@, new_id_vec@[j2]).contains(b)]
                                            0 <= j2 < i2 && old_ids.contains(new_id_vec@[j2])
                                                && doc_title(old_doc@, new_id_vec@[j2])
                                                != doc_title(nd, new_id_vec@[j2])
                                                && doc_backlinks(
                                                old_doc@,
                                                new_id_vec@[j2],
                                            ).contains(b) ==> ups_contains(
                                                updates@,
                                                (GraphUpdateV::CheckConnection {
                                                    from: b,
                                                    to: new_id_vec@[j2],
                                                }),
                                            ),
                                    decreases nc - c,
                                {
                                    let (t, _valid) = new_conns[c];
                                    if !old_scn.connections_map().contains_key(&t) {
                                        let ghost ub = updates@;
                                        let u = GraphUpdate::CheckConnection {
                                            from: nid,
                                            to: t,
                                        };
                                        proof {
                                            lemma_legit_push(ub, u, od, old_ids, nd, path@);
                                        }
                                        updates.push(u);
                                    }
                                    c = c + 1;
                                }
                                // Targets that disappeared: drop their
                                // backlink or invalid-connection record.
                                let old_conns = old_scn.connections();
                                let oc = old_conns.len();
                                let mut c2: usize = 0;
                                while c2 < oc
                                    invariant
                                        connected.inv(),
                                        connected@ == nd,
                                        0 <= c2 <= oc,
                                        forall|j: int|
                                            0 <= j < updates@.len() ==> legit_update(
                                                (#[trigger] updates@[j])@,
                                                od,
                                                old_ids,
                                                nd,
                                                path@,
                                            ),
                                        forall|j2: int|
                                            0 <= j2 < old_id_vec@.len() && !nd.root.map.dom()
                                                .contains(#[trigger] old_id_vec@[j2])
                                                ==> ups_contains(
                                                updates@,
                                                GraphUpdateV::RemoveNode(old_id_vec@[j2]),
                                            ),
                                        forall|j2: int, bx: u128|
                                            0 <= j2 < old_id_vec@.len() && !nd.root.map.dom()
                                                .contains(old_id_vec@[j2])
                                                && #[trigger] doc_backlinks(
                                                old_doc@,
                                                old_id_vec@[j2],
                                            ).contains(bx) ==> ups_contains(
                                                updates@,
                                                (GraphUpdateV::CheckConnection {
                                                    from: bx,
                                                    to: old_id_vec@[j2],
                                                }),
                                            ),
                                        forall|j2: int, tx: u128|
                                            0 <= j2 < i2 && !old_ids.contains(new_id_vec@[j2])
                                                && doc_targets(nd, new_id_vec@[j2]).contains(
                                                tx,
                                            ) ==> #[trigger] ups_contains(
                                                updates@,
                                                (GraphUpdateV::CheckConnection {
                                                    from: new_id_vec@[j2],
                                                    to: tx,
                                                }),
                                            ),
                                        forall|j2: int|
                                            0 <= j2 < i2 && !old_ids.contains(
                                                #[trigger] new_id_vec@[j2],
                                            ) ==> ups_contains(
                                                updates@,
                                                (GraphUpdateV::AddNode {
                                                    id: new_id_vec@[j2],
                                                    path: path@,
                                                }),
                                            ),
                                        forall|j2: int, b: u128|
                                            #![trigger doc_backlinks(old_doc@, new_id_vec@[j2]).contains(b)]
                                            0 <= j2 < i2 && old_ids.contains(new_id_vec@[j2])
                                                && doc_title(old_doc@, new_id_vec@[j2])
                                                != doc_title(nd, new_id_vec@[j2])
                                                && doc_backlinks(
                                                old_doc@,
                                                new_id_vec@[j2],
                                            ).contains(b) ==> ups_contains(
                                                updates@,
                                                (GraphUpdateV::CheckConnection {
                                                    from: b,
                                                    to: new_id_vec@[j2],
                                                }),
                                            ),
                                    decreases oc - c2,
                                {
                                    let (t, valid) = old_conns[c2];
                                    let still_there = match connected.root.node(&nid) {
                                        Some(new_scn) => new_scn.connections_map().contains_key(
                                            &t,
                                        ),
                                        None => false,
                                    };
                                    if !still_there {
                                        let ghost ub = updates@;
                                        let u = if valid {
                                            GraphUpdate::RemoveBacklink { on: t, from: nid }
                                        } else {
                                            GraphUpdate::RemoveInvalidConnection {
                                                from: nid,
                                                to: t,
                                            }
                                        };
                                        proof {
                                            lemma_legit_push(ub, u, od, old_ids, nd, path@);
                                        }
                                        updates.push(u);
                                    }
                                    c2 = c2 + 1;
                                }
                                // If the rendered title changed, every
                                // existing backlink source must refresh the
                                // title it displays.
                                let old_title = old_scn.title(Format::Markdown);
                                let new_title = match connected.root.node(&nid) {
                                    Some(new_scn) => new_scn.title(Format::Markdown),
                                    None => String::new(),
                                };
                                if !old_title.eq(&new_title) {
                                    let bls = old_scn.backlinks();
                                    let nb = bls.len();
                                    let mut b: usize = 0;
                                    while b < nb
                                        invariant
                                            0 <= b <= nb,
                                            old_title@ == doc_title(old_doc@, nid),
                                            new_title@ == doc_title(nd, nid),
                                            old_title@ != new_title@,
                                            nd.root.map.dom().contains(nid),
                                            old_ids.contains(nid),
                                            forall|bj: int|
                                                0 <= bj < bls@.len()
                                                    ==> doc_backlinks(old_doc@, nid).contains(
                                                    #[trigger] bls@[bj],
                                                ),
                                            forall|bx: u128| #[trigger]
                                                doc_backlinks(old_doc@, nid).contains(bx)
                                                    ==> exists|bj: int|
                                                    0 <= bj < bls@.len() && bls@[bj] == bx,
                                            forall|j: int|
                                                0 <= j < updates@.len() ==> legit_update(
                                                    (#[trigger] updates@[j])@,
                                                    od,
                                                    old_ids,
                                                    nd,
                                                    path@,
                                                ),
                                            forall|j2: int|
                                                0 <= j2 < old_id_vec@.len() && !nd.root.map.dom()
                                                    .contains(#[trigger] old_id_vec@[j2])
                                                    ==> ups_contains(
                                                    updates@,
                                                    GraphUpdateV::RemoveNode(old_id_vec@[j2]),
                                                ),
                                            forall|j2: int, bx2: u128|
                                                0 <= j2 < old_id_vec@.len() && !nd.root.map.dom()
                                                    .contains(old_id_vec@[j2])
                                                    && #[trigger] doc_backlinks(
                                                    old_doc@,
                                                    old_id_vec@[j2],
                                                ).contains(bx2) ==> ups_contains(
                                                    updates@,
                                                    (GraphUpdateV::CheckConnection {
                                                        from: bx2,
                                                        to: old_id_vec@[j2],
                                                    }),
                                                ),
                                            forall|j2: int, tx: u128|
                                                0 <= j2 < i2 && !old_ids.contains(
                                                    new_id_vec@[j2],
                                                ) && doc_targets(nd, new_id_vec@[j2]).contains(
                                                    tx,
                                                ) ==> #[trigger] ups_contains(
                                                    updates@,
                                                    (GraphUpdateV::CheckConnection {
                                                        from: new_id_vec@[j2],
                                                        to: tx,
                                                    }),
                                                ),
                                            forall|j2: int|
                                                0 <= j2 < i2 && !old_ids.contains(
                                                    #[trigger] new_id_vec@[j2],
                                                ) ==> ups_contains(
                                                    updates@,
                                                    (GraphUpdateV::AddNode {
                                                        id: new_id_vec@[j2],
                                                        path: path@,
                                                    }),
                                                ),
                                            forall|j2: int, bx: u128|
                                                #![trigger doc_backlinks(old_doc@, new_id_vec@[j2]).contains(bx)]
                                                0 <= j2 < i2 && old_ids.contains(
                                                    new_id_vec@[j2],
                                                ) && doc_title(old_doc@, new_id_vec@[j2])
                                                    != doc_title(nd, new_id_vec@[j2])
                                                    && doc_backlinks(
                                                    old_doc@,
                                                    new_id_vec@[j2],
                                                ).contains(bx) ==> ups_contains(
                                                    updates@,
                                                    (GraphUpdateV::CheckConnection {
                                                        from: bx,
                                                        to: new_id_vec@[j2],
                                                    }),
                                                ),
                                            forall|bj: int|
                                                0 <= bj < b ==> ups_contains(
                                                    updates@,
                                                    (GraphUpdateV::CheckConnection {
                                                        from: bls@[bj],
                                                        to: nid,
                                                    }),
                                                ),
                                        decreases nb - b,
                                    {
                                        let ghost ub = updates@;
                                        let u = GraphUpdate::CheckConnection {
                                            from: bls[b],
                                            to: nid,
                                        };
                                        proof {
                                            lemma_legit_push(ub, u, od, old_ids, nd, path@);
                                        }
                                        updates.push(u);
                                        proof {
                                            assert(updates@[updates@.len() - 1]@
                                                == (GraphUpdateV::CheckConnection {
                                                from: bls@[b as int],
                                                to: nid,
                                            }));
                                        }
                                        b = b + 1;
                                    }
                                    proof {
                                        assert forall|bx: u128| #[trigger]
                                            doc_backlinks(old_doc@, nid).contains(
                                            bx,
                                        ) implies ups_contains(
                                            updates@,
                                            (GraphUpdateV::CheckConnection {
                                                from: bx,
                                                to: nid,
                                            }),
                                        ) by {
                                            let bj = choose|bj: int|
                                                0 <= bj < bls@.len() && bls@[bj] == bx;
                                            assert(ups_contains(
                                                updates@,
                                                (GraphUpdateV::CheckConnection {
                                                    from: bls@[bj],
                                                    to: nid,
                                                }),
                                            ));
                                        }
                                    }
                                }
                            },
                            None => {},
                        }
                    }
                    proof {
                        assert forall|j2: int, b: u128|
                            #![trigger doc_backlinks(old_doc@, new_id_vec@[j2]).contains(b)]
                            0 <= j2 < i2 + 1 && old_ids.contains(new_id_vec@[j2]) && doc_title(
                                old_doc@,
                                new_id_vec@[j2],
                            ) != doc_title(nd, new_id_vec@[j2]) && doc_backlinks(
                                old_doc@,
                                new_id_vec@[j2],
                            ).contains(b) implies ups_contains(
                            updates@,
                            (GraphUpdateV::CheckConnection { from: b, to: new_id_vec@[j2] }),
                        ) by {}
                        assert forall|j2: int, tx: u128|
                            0 <= j2 < i2 + 1 && !old_ids.contains(new_id_vec@[j2])
                                && doc_targets(nd, new_id_vec@[j2]).contains(
                                tx,
                            ) implies #[trigger] ups_contains(
                            updates@,
                            (GraphUpdateV::CheckConnection {
                                from: new_id_vec@[j2],
                                to: tx,
                            }),
                        ) by {}
                    }
                    i2 = i2 + 1;
                }
                proof {
                    assert forall|id: u128, b: u128|
                        old_ids.contains(id) && !nd.root.map.dom().contains(id)
                            && #[trigger] doc_backlinks(od.unwrap(), id).contains(
                            b,
                        ) implies ups_contains(
                        updates@,
                        (GraphUpdateV::CheckConnection { from: b, to: id }),
                    ) by {
                        assert(old_doc@.root.map.dom().contains(id));
                        let j2 = choose|j2: int|
                            0 <= j2 < old_id_vec@.len() && old_id_vec@[j2] == id;
                        assert(doc_backlinks(old_doc@, old_id_vec@[j2]).contains(b));
                    }
                    assert forall|id: u128, tx: u128|
                        nd.root.map.dom().contains(id) && !old_ids.contains(id) && doc_targets(
                            nd,
                            id,
                        ).contains(tx) implies #[trigger] ups_contains(
                        updates@,
                        (GraphUpdateV::CheckConnection { from: id, to: tx }),
                    ) by {
                        assert(base_dom.contains(id));
                        let j2 = choose|j2: int|
                            0 <= j2 < new_id_vec@.len() && new_id_vec@[j2] == id;
                        assert(doc_targets(nd, new_id_vec@[j2]).contains(tx));
                    }
                }
            },
            None => {
                // The first version of this document: every node is added
                // and every connection checked.
                let nn = new_id_vec.len();
                let mut i2: usize = 0;
                while i2 < nn
                    invariant
                        connected.inv(),
                        connected@ == nd,
                        od is None,
                        old_ids == Set::<u128>::empty(),
                        0 <= i2 <= nn,
                        forall|j: int|
                            0 <= j < updates@.len() ==> legit_update(
                                (#[trigger] updates@[j])@,
                                od,
                                old_ids,
                                nd,
                                path@,
                            ),
                        forall|j2: int|
                            0 <= j2 < i2 ==> ups_contains(
                                updates@,
                                (GraphUpdateV::AddNode {
                                    id: #[trigger] new_id_vec@[j2],
                                    path: path@,
                                }),
                            ),
                        forall|j2: int, tx: u128|
                            0 <= j2 < i2 && doc_targets(nd, new_id_vec@[j2]).contains(tx)
                                ==> #[trigger] ups_contains(
                                updates@,
                                (GraphUpdateV::CheckConnection {
                                    from: new_id_vec@[j2],
                                    to: tx,
                                }),
                            ),
                    decreases nn - i2,
                {
                    let nid = new_id_vec[i2];
                    let ghost ub = updates@;
                    let u = GraphUpdate::AddNode { id: nid, path: path.clone() };
                    proof {
                        lemma_legit_push(ub, u, od, old_ids, nd, path@);
                    }
                    updates.push(u);
                    proof {
                        assert(updates@[updates@.len() - 1]@ == (GraphUpdateV::AddNode {
                            id: nid,
                            path: path@,
                        }));
                    }
                    match connected.root.node(&nid) {
                        Some(new_scn) => {
                            let conns = new_scn.connections();
                            let nc = conns.len();
                            let mut c: usize = 0;
                            while c < nc
                                invariant
                                    new_scn@ == nd.root.map[nid as u128],
                                    nd.root.map.dom().contains(nid),
                                    forall|a: int|
                                        0 <= a < conns@.len() ==> nd.root.map[
                                            nid as u128
                                        ].connections.dom().contains((#[trigger] conns@[a]).0),
                                    forall|tx: u128| #[trigger]
                                        nd.root.map[nid as u128].connections.dom().contains(tx)
                                            ==> exists|a: int|
                                            0 <= a < conns@.len() && (#[trigger] conns@[a]).0
                                                == tx,
                                    forall|cb: int|
                                        0 <= cb < c ==> ups_contains(
                                            updates@,
                                            (GraphUpdateV::CheckConnection {
                                                from: nid,
                                                to: (#[trigger] conns@[cb]).0,
                                            }),
                                        ),
                                    0 <= c <= nc,
                                    forall|j: int|
                                        0 <= j < updates@.len() ==> legit_update(
                                            (#[trigger] updates@[j])@,
                                            od,
                                            old_ids,
                                            nd,
                                            path@,
                                        ),
                                    forall|j2: int|
                                        0 <= j2 <= i2 && j2 < nn ==> ups_contains(
                                            updates@,
                                            (GraphUpdateV::AddNode {
                                                id: #[trigger] new_id_vec@[j2],
                                                path: path@,
                                            }),
                                        ),
                                    forall|j2: int, tx: u128|
                                        0 <= j2 < i2 && doc_targets(nd, new_id_vec@[j2]).contains(
                                            tx,
                                        ) ==> #[trigger] ups_contains(
                                            updates@,
                                            (GraphUpdateV::CheckConnection {
                                                from: new_id_vec@[j2],
                                                to: tx,
                                            }),
                                        ),
                                decreases nc - c,
                            {
                                let (t, _valid) = conns[c];
                                let ghost ub2 = updates@;
                                let u2 = GraphUpdate::CheckConnection { from: nid, to: t };
                                proof {
                                    lemma_legit_push(ub2, u2, od, old_ids, nd, path@);
                                }
                                updates.push(u2);
                                proof {
                                    assert(updates@[updates@.len() - 1]@
                                        == (GraphUpdateV::CheckConnection {
                                        from: nid,
                                        to: conns@[c as int].0,
                                    }));
                                }
                                c = c + 1;
                            }
                            proof {
                                assert forall|tx: u128|
                                    doc_targets(nd, nid).contains(tx) implies ups_contains(
                                    updates@,
                                    (GraphUpdateV::CheckConnection { from: nid, to: tx }),
                                ) by {
                                    let a = choose|a: int|
                                        0 <= a < conns@.len() && (#[trigger] conns@[a]).0 == tx;
                                    assert(ups_contains(
                                        updates@,
                                        (GraphUpdateV::CheckConnection {
                                            from: nid,
                                            to: conns@[a].0,
                                        }),
                                    ));
                                }
                            }
                        },
                        None => {},
                    }
                    proof {
                        assert forall|j2: int, tx: u128|
                            0 <= j2 < i2 + 1 && doc_targets(nd, new_id_vec@[j2]).contains(
                            tx,
                        ) implies #[trigger] ups_contains(
                            updates@,
                            (GraphUpdateV::CheckConnection {
                                from: new_id_vec@[j2],
                                to: tx,
                            }),
                        ) by {}
                    }
                    i2 = i2 + 1;
                }
                proof {
                    assert forall|id: u128, tx: u128|
                        nd.root.map.dom().contains(id) && !old_ids.contains(id) && doc_targets(
                            nd,
                            id,
                        ).contains(tx) implies #[trigger] ups_contains(
                        updates@,
                        (GraphUpdateV::CheckConnection { from: id, to: tx }),
                    ) by {
                        assert(base_dom.contains(id));
                        let j2 = choose|j2: int|
                            0 <= j2 < new_id_vec@.len() && new_id_vec@[j2] == id;
                        assert(doc_targets(nd, new_id_vec@[j2]).contains(tx));
                    }
                }
            },
        }
        // Record the new id set.
        let mut node_ids: KeySet<u128> = KeySet::new();
        let nn2 = new_id_vec.len();
        let mut i3: usize = 0;
        while i3 < nn2
            invariant
                node_ids.wf(),
                0 <= i3 <= nn2,
                forall|q: u128|
                    node_ids@.contains(q) <==> exists|j: int|
                        0 <= j < i3 && #[trigger] new_id_vec@[j] == q,
            decreases nn2 - i3,
        {
            node_ids.insert(new_id_vec[i3]);
            proof {
                assert forall|q: u128|
                    node_ids@.contains(q) <==> exists|j: int|
                        0 <= j < i3 + 1 && #[trigger] new_id_vec@[j] == q by {
                    if node_ids@.contains(q) && q != new_id_vec@[i3 as int] {
                    }
                    if q == new_id_vec@[i3 as int] {
                        assert(new_id_vec@[i3 as int] == q);
                    }
                }
            }
            i3 = i3 + 1;
        }
        proof {
            assert(node_ids@ =~= nd.root.map.dom()) by {
                assert forall|q: u128| node_ids@.contains(q) implies nd.root.map.dom().contains(
                    q,
                ) by {}
                assert forall|q: u128| nd.root.map.dom().contains(q) implies node_ids@.contains(
                    q,
                ) by {
                    assert(base_dom.contains(q));
                }
            }
        }
        let new_self = PathNode { path, document: Some(connected), node_ids, error: None };
        proof {
            assert(new_self@.document == Some(nd));
            assert(new_self.inv());
        }
        (new_self, updates)
    }

    /// Creates a new [`PathNode`] from the given path and the result of
    /// reading and parsing its contents, with the instructions that enter
    /// its nodes into the graph.
    pub fn new(
        path: String,
        contents: Result<StarlingDocument, PathParseError>,
        config: &Config,
    ) -> (r: (PathNode, Vec<GraphUpdate>))
        requires
            config.valid(),
        ensures
            r.0.inv(),
            r.0@.path == path@,
            spec_update_post(
                r.1@,
                None,
                Set::<u128>::empty(),
                r.0@,
                path@,
                contents,
                *config,
            ),
    {
        // An empty state; the update fixes it up immediately.
        let dummy = PathNode {
            path: path.clone(),
            document: None,
            node_ids: KeySet::new(),
            error: None,
        };
        proof {
            assert(dummy@.document is None);
            assert(dummy@.node_ids =~= Set::<u128>::empty());
        }
        let r = dummy.update(path, contents, config);
        proof {
            assert(r.0@.document == dummy@.document || !(r.0@.document == dummy@.document));
        }
        r
    }

    /// The instructions for the deletion of this path: every node leaves the
    /// graph, with the same per-connection records as any other removal, and
    /// finally the path itself is deleted. The path's own contents are not
    /// touched.
    #[verifier::loop_isolation(false)]
    pub fn delete(&self) -> (r: Vec<GraphUpdate>)
        requires
            self.inv(),
        ensures
            spec_delete_post(r@, self@.document, self@.node_ids, self@.path),
    {
        broadcast use lemma_ups_contains_push;

        let ghost od = self@.document;
        let ghost old_ids = self@.node_ids;
        let mut updates: Vec<GraphUpdate> = Vec::new();
        match &self.document {
            Some(old_doc) => {
                let old_id_vec = old_doc.root.ids();
                let no = old_id_vec.len();
                let mut i: usize = 0;
                while i < no
                    invariant
                        od == Some(old_doc@),
                        old_ids == old_doc@.root.map.dom(),
                        0 <= i <= no,
                        forall|j: int|
                            0 <= j < updates@.len() ==> legit_delete(
                                (#[trigger] updates@[j])@,
                                od,
                                old_ids,
                                self@.path,
                            ),
                        forall|j2: int|
                            0 <= j2 < i ==> ups_contains(
                                updates@,
                                GraphUpdateV::RemoveNode(#[trigger] old_id_vec@[j2]),
                            ),
                        forall|j2: int, t: u128|
                            0 <= j2 < i && #[trigger] doc_targets(
                                old_doc@,
                                old_id_vec@[j2],
                            ).contains(t) ==> (doc_valid(old_doc@, old_id_vec@[j2], t)
                                ==> ups_contains(
                                updates@,
                                (GraphUpdateV::RemoveBacklink {
                                    on: t,
                                    from: old_id_vec@[j2],
                                }),
                            )) && (!doc_valid(old_doc@, old_id_vec@[j2], t) ==> ups_contains(
                                updates@,
                                (GraphUpdateV::RemoveInvalidConnection {
                                    from: old_id_vec@[j2],
                                    to: t,
                                }),
                            )),
                        forall|j2: int, b: u128|
                            0 <= j2 < i && #[trigger] doc_backlinks(
                                old_doc@,
                                old_id_vec@[j2],
                            ).contains(b) ==> ups_contains(
                                updates@,
                                (GraphUpdateV::CheckConnection {
                                    from: b,
                                    to: old_id_vec@[j2],
                                }),
                            ),
                    decreases no - i,
                {
                    let rid = old_id_vec[i];
                    match old_doc.root.node(&rid) {
                        Some(removed_scn) => {
                            let conns = removed_scn.connections();
                            let nc = conns.len();
                            let mut c: usize = 0;
                            while c < nc
                                invariant
                                    removed_scn@ == old_doc@.root.map[rid as u128],
                                    old_doc@.root.map.dom().contains(rid),
                                    forall|a: int|
                                        0 <= a < conns@.len() ==> old_doc@.root.map[
                                            rid as u128
                                        ].connections.dom().contains((#[trigger] conns@[a]).0)
                                            && conns@[a].1 == old_doc@.root.map[
                                            rid as u128
                                        ].connections[conns@[a].0].valid,
                                    forall|tx: u128| #[trigger]
                                        old_doc@.root.map[rid as u128].connections.dom().contains(
                                            tx,
                                        ) ==> exists|a: int|
                                            0 <= a < conns@.len() && (#[trigger] conns@[a]).0
                                                == tx,
                                    forall|cb: int|
                                        0 <= cb < c ==> ((#[trigger] conns@[cb]).1
                                            ==> ups_contains(
                                            updates@,
                                            (GraphUpdateV::RemoveBacklink {
                                                on: conns@[cb].0,
                                                from: rid,
                                            }),
                                        )) && (!conns@[cb].1 ==> ups_contains(
                                            updates@,
                                            (GraphUpdateV::RemoveInvalidConnection {
                                                from: rid,
                                                to: conns@[cb].0,
                                            }),
                                        )),
                                    0 <= c <= nc,
                                    forall|j: int|
                                        0 <= j < updates@.len() ==> legit_delete(
                                            (#[trigger] updates@[j])@,
                                            od,
                                            old_ids,
                                            self@.path,
                                        ),
                                    forall|j2: int|
                                        0 <= j2 < i ==> ups_contains(
                                            updates@,
                                            GraphUpdateV::RemoveNode(
                                                #[trigger] old_id_vec@[j2],
                                            ),
                                        ),
                                    forall|j2: int, t: u128|
                                        0 <= j2 < i && #[trigger] doc_targets(
                                            old_doc@,
                                            old_id_vec@[j2],
                                        ).contains(t) ==> (doc_valid(
                                            old_doc@,
                                            old_id_vec@[j2],
                                            t,
                                        ) ==> ups_contains(
                                            updates@,
                                            (GraphUpdateV::RemoveBacklink {
                                                on: t,
                                                from: old_id_vec@[j2],
                                            }),
                                        )) && (!doc_valid(old_doc@, old_id_vec@[j2], t)
                                            ==> ups_contains(
                                            updates@,
                                            (GraphUpdateV::RemoveInvalidConnection {
                                                from: old_id_vec@[j2],
                                                to: t,
                                            }),
                                        )),
                                    forall|j2: int, b: u128|
                                        0 <= j2 < i && #[trigger] doc_backlinks(
                                            old_doc@,
                                            old_id_vec@[j2],
                                        ).contains(b) ==> ups_contains(
                                            updates@,
                                            (GraphUpdateV::CheckConnection {
                                                from: b,
                                                to: old_id_vec@[j2],
                                            }),
                                        ),
                                decreases nc - c,
                            {
                                let (t, valid) = conns[c];
                                let u = if valid {
                                    GraphUpdate::RemoveBacklink { on: t, from: rid }
                                } else {
                                    GraphUpdate::RemoveInvalidConnection { from: rid, to: t }
                                };
                                let ghost ub = updates@;
                                proof {
                                    assert forall|j: int|
                                        0 <= j < ub.push(u).len() implies legit_delete(
                                        (#[trigger] ub.push(u)[j])@,
                                        od,
                                        old_ids,
                                        self@.path,
                                    ) by {
                                        if j < ub.len() {
                                            assert(ub.push(u)[j] == ub[j]);
                                        } else {
                                            assert(ub.push(u)[j] == u);
                                        }
                                    }
                                }
                                updates.push(u);
                                proof {
                                    assert(updates@[updates@.len() - 1] == u);
                                }
                                c = c + 1;
                            }
                            proof {
                                assert forall|tx: u128| #[trigger]
                                    doc_targets(old_doc@, rid).contains(tx) implies (doc_valid(
                                    old_doc@,
                                    rid,
                                    tx,
                                ) ==> ups_contains(
                                    updates@,
                                    (GraphUpdateV::RemoveBacklink { on: tx, from: rid }),
                                )) && (!doc_valid(old_doc@, rid, tx) ==> ups_contains(
                                    updates@,
                                    (GraphUpdateV::RemoveInvalidConnection {
                                        from: rid,
                                        to: tx,
                                    }),
                                )) by {
                                    let a = choose|a: int|
                                        0 <= a < conns@.len() && (#[trigger] conns@[a]).0 == tx;
                                    assert((conns@[a].1 ==> ups_contains(
                                        updates@,
                                        (GraphUpdateV::RemoveBacklink {
                                            on: conns@[a].0,
                                            from: rid,
                                        }),
                                    )) && (!conns@[a].1 ==> ups_contains(
                                        updates@,
                                        (GraphUpdateV::RemoveInvalidConnection {
                                            from: rid,
                                            to: conns@[a].0,
                                        }),
                                    )));
                                }
                            }
                            let bls = removed_scn.backlinks();
                            let nb = bls.len();
                            let mut b: usize = 0;
                            while b < nb
                                invariant
                                    removed_scn@ == old_doc@.root.map[rid as u128],
                                    old_doc@.root.map.dom().contains(rid),
                                    forall|bj: int|
                                        0 <= bj < bls@.len() ==> doc_backlinks(
                                            old_doc@,
                                            rid,
                                        ).contains(#[trigger] bls@[bj]),
                                    forall|bx: u128| #[trigger]
                                        doc_backlinks(old_doc@, rid).contains(bx) ==> exists|
                                            bj: int,
                                        |
                                            0 <= bj < bls@.len() && bls@[bj] == bx,
                                    forall|bj: int|
                                        0 <= bj < b ==> ups_contains(
                                            updates@,
                                            (GraphUpdateV::CheckConnection {
                                                from: #[trigger] bls@[bj],
                                                to: rid,
                                            }),
                                        ),
                                    forall|j2: int, t: u128|
                                        0 <= j2 <= i && j2 < old_id_vec@.len()
                                            && #[trigger] doc_targets(
                                            old_doc@,
                                            old_id_vec@[j2],
                                        ).contains(t) && (j2 < i || old_id_vec@[j2] == rid) ==> (
                                        doc_valid(old_doc@, old_id_vec@[j2], t) ==> ups_contains(
                                            updates@,
                                            (GraphUpdateV::RemoveBacklink {
                                                on: t,
                                                from: old_id_vec@[j2],
                                            }),
                                        )) && (!doc_valid(old_doc@, old_id_vec@[j2], t)
                                            ==> ups_contains(
                                            updates@,
                                            (GraphUpdateV::RemoveInvalidConnection {
                                                from: old_id_vec@[j2],
                                                to: t,
                                            }),
                                        )),
                                    0 <= b <= nb,
                                    forall|j: int|
                                        0 <= j < updates@.len() ==> legit_delete(
                                            (#[trigger] updates@[j])@,
                                            od,
                                            old_ids,
                                            self@.path,
                                        ),
                                    forall|j2: int|
                                        0 <= j2 < i ==> ups_contains(
                                            updates@,
                                            GraphUpdateV::RemoveNode(
                                                #[trigger] old_id_vec@[j2],
                                            ),
                                        ),
                                    forall|j2: int, b2: u128|
                                        0 <= j2 < i && #[trigger] doc_backlinks(
                                            old_doc@,
                                            old_id_vec@[j2],
                                        ).contains(b2) ==> ups_contains(
                                            updates@,
                                            (GraphUpdateV::CheckConnection {
                                                from: b2,
                                                to: old_id_vec@[j2],
                                            }),
                                        ),
                                decreases nb - b,
                            {
                                let u = GraphUpdate::CheckConnection { from: bls[b], to: rid };
                                let ghost ub = updates@;
                                proof {
                                    assert forall|j: int|
                                        0 <= j < ub.push(u).len() implies legit_delete(
                                        (#[trigger] ub.push(u)[j])@,
                                        od,
                                        old_ids,
                                        self@.path,
                                    ) by {
                                        if j < ub.len() {
                                            assert(ub.push(u)[j] == ub[j]);
                                        } else {
                                            assert(ub.push(u)[j] == u);
                                        }
                                    }
                                }
                                updates.push(u);
                                proof {
                                    assert(updates@[updates@.len() - 1]@
                                        == (GraphUpdateV::CheckConnection {
                                        from: bls@[b as int],
                                        to: rid,
                                    }));
                                }
                                b = b + 1;
                            }
                            proof {
                                assert forall|bx: u128| #[trigger]
                                    doc_backlinks(old_doc@, rid).contains(
                                    bx,
                                ) implies ups_contains(
                                    updates@,
                                    (GraphUpdateV::CheckConnection { from: bx, to: rid }),
                                ) by {
                                    let bj = choose|bj: int|
                                        0 <= bj < bls@.len() && bls@[bj] == bx;
                                    assert(ups_contains(
                                        updates@,
                                        (GraphUpdateV::CheckConnection {
                                            from: bls@[bj],
                                            to: rid,
                                        }),
                                    ));
                                }
                            }
                        },
                        None => {},
                    }
                    let u = GraphUpdate::RemoveNode(rid);
                    let ghost ub = updates@;
                    proof {
                        assert forall|j: int|
                            0 <= j < ub.push(u).len() implies legit_delete(
                            (#[trigger] ub.push(u)[j])@,
                            od,
                            old_ids,
                            self@.path,
                        ) by {
                            if j < ub.len() {
                                assert(ub.push(u)[j] == ub[j]);
                            } else {
                                assert(ub.push(u)[j] == u);
                            }
                        }
                    }
                    updates.push(u);
                    proof {
                        assert(updates@[updates@.len() - 1]@ == GraphUpdateV::RemoveNode(rid));
                        assert forall|j2: int, t: u128|
                            0 <= j2 < i + 1 && #[trigger] doc_targets(
                            old_doc@,
                            old_id_vec@[j2],
                        ).contains(t) implies (doc_valid(old_doc@, old_id_vec@[j2], t)
                            ==> ups_contains(
                            updates@,
                            (GraphUpdateV::RemoveBacklink { on: t, from: old_id_vec@[j2] }),
                        )) && (!doc_valid(old_doc@, old_id_vec@[j2], t) ==> ups_contains(
                            updates@,
                            (GraphUpdateV::RemoveInvalidConnection {
                                from: old_id_vec@[j2],
                                to: t,
                            }),
                        )) by {}
                        assert forall|j2: int, b2: u128|
                            0 <= j2 < i + 1 && #[trigger] doc_backlinks(
                            old_doc@,
                            old_id_vec@[j2],
                        ).contains(b2) implies ups_contains(
                            updates@,
                            (GraphUpdateV::CheckConnection { from: b2, to: old_id_vec@[j2] }),
                        ) by {}
                    }
                    i = i + 1;
                }
                proof {
                    assert forall|id: u128| #[trigger]
                        old_ids.contains(id) implies ups_contains(
                        updates@,
                        GraphUpdateV::RemoveNode(id),
                    ) by {
                        let j2 = choose|j2: int|
                            0 <= j2 < old_id_vec@.len() && old_id_vec@[j2] == id;
                        assert(ups_contains(
                            updates@,
                            GraphUpdateV::RemoveNode(old_id_vec@[j2]),
                        ));
                    }
                    assert forall|id: u128, t: u128|
                        old_ids.contains(id) && #[trigger] doc_targets(
                        old_doc@,
                        id,
                    ).contains(t) implies (doc_valid(old_doc@, id, t) ==> ups_contains(
                        updates@,
                        (GraphUpdateV::RemoveBacklink { on: t, from: id }),
                    )) && (!doc_valid(old_doc@, id, t) ==> ups_contains(
                        updates@,
                        (GraphUpdateV::RemoveInvalidConnection { from: id, to: t }),
                    )) by {
                        let j2 = choose|j2: int|
                            0 <= j2 < old_id_vec@.len() && old_id_vec@[j2] == id;
                        assert(doc_targets(old_doc@, old_id_vec@[j2]).contains(t));
                    }
                    assert forall|id: u128, b2: u128|
                        old_ids.contains(id) && #[trigger] doc_backlinks(
                        old_doc@,
                        id,
                    ).contains(b2) implies ups_contains(
                        updates@,
                        (GraphUpdateV::CheckConnection { from: b2, to: id }),
                    ) by {
                        let j2 = choose|j2: int|
                            0 <= j2 < old_id_vec@.len() && old_id_vec@[j2] == id;
                        assert(doc_backlinks(old_doc@, old_id_vec@[j2]).contains(b2));
                    }
                }
            },
            None => {},
        }
        // Regardless of whether there was a document, remove the path.
        let u = GraphUpdate::DeletePathNode(self.path.clone());
        let ghost ub = updates@;
        proof {
            assert forall|j: int|
                0 <= j < ub.push(u).len() implies legit_delete(
                (#[trigger] ub.push(u)[j])@,
                od,
                old_ids,
                self@.path,
            ) by {
                if j < ub.len() {
                    assert(ub.push(u)[j] == ub[j]);
                } else {
                    assert(ub.push(u)[j] == u);
                }
            }
        }
        updates.push(u);
        proof {
            assert forall|id: u128| #[trigger]
                self@.node_ids.contains(id) implies ups_contains(
                updates@,
                GraphUpdateV::RemoveNode(id),
            ) by {
                assert(old_ids.contains(id));
            }
        }
        updates
    }
}

} // verus!
