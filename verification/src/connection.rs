//! Typed links between nodes, and strings tokenised around them.
//!
//! A title or body is parsed into an alternating stream of literal text spans
//! and link tokens. Each link token records the target id and a variant
//! index; the variants (type and rendered title) live in a map keyed by the
//! target id, so that one node's links to one target stay together. The
//! stream plus the map reproduce the string through [`spec_render`].

use crate::chars::{chars_to_string, string_to_chars};
use crate::config::{seq_contains_string, vec_contains_string, Config};
use crate::document::Format;
use crate::ids::{parse_id, spec_id_str, spec_parse_id};
use crate::keymap::{KeyMap, KeySet, Stored};
use vstd::prelude::*;

verus! {

/// One variant of a connection to a target node: its type (one of the
/// configured link types) and the link text the user most recently wrote (or
/// the target's validated title).
#[derive(PartialEq, Eq, Debug, Clone)]
pub struct Connection {
    pub ty: String,
    pub title: String,
}

#[verifier::ext_equal]
pub struct ConnectionV {
    pub ty: Seq<char>,
    pub title: Seq<char>,
}

impl View for Connection {
    type V = ConnectionV;

    open spec fn view(&self) -> ConnectionV {
        ConnectionV { ty: self.ty@, title: self.title@ }
    }
}

impl Connection {
    pub fn duplicate(&self) -> (r: Self)
        ensures
            r@ == self@,
    {
        Connection { ty: self.ty.clone(), title: self.title.clone() }
    }
}

/// A token in a tokenised string: a literal text span, or a link to the
/// node with the given id, distinguished from parallel links to the same
/// target by the variant index.
#[derive(PartialEq, Eq, Debug, Clone)]
pub enum ConnectionToken {
    Text(String),
    Link { id: u128, idx: usize },
}

pub enum TokenV {
    Text(Seq<char>),
    Link { id: u128, idx: usize },
}

impl View for ConnectionToken {
    type V = TokenV;

    open spec fn view(&self) -> TokenV {
        match self {
            ConnectionToken::Text(t) => TokenV::Text(t@),
            ConnectionToken::Link { id, idx } => TokenV::Link { id: *id, idx: *idx },
        }
    }
}

/// All the parallel connections from one node to a single target.
#[derive(PartialEq, Eq, Debug, Clone)]
pub struct ParallelConnections {
    /// Whether these connections are valid: the target exists. Validity is
    /// unimpacted by the metadata of titles and types.
    pub valid: bool,
    /// The variants, with their own types and titles.
    pub variants: Vec<Connection>,
}

#[verifier::ext_equal]
pub struct ParallelConnectionsV {
    pub valid: bool,
    pub variants: Seq<ConnectionV>,
}

impl View for ParallelConnections {
    type V = ParallelConnectionsV;

    open spec fn view(&self) -> ParallelConnectionsV {
        ParallelConnectionsV {
            valid: self.valid,
            variants: self.variants@.map_values(|c: Connection| c@),
        }
    }
}

impl Stored for ParallelConnections {
    open spec fn inv(&self) -> bool {
        true
    }

    fn duplicate(&self) -> (r: Self)
        ensures
            r@ == self@,
            r.inv(),
    {
        let mut variants: Vec<Connection> = Vec::new();
        let n = self.variants.len();
        let mut i: usize = 0;
        while i < n
            invariant
                n == self.variants@.len(),
                0 <= i <= n,
                variants@.len() == i,
                forall|j: int| 0 <= j < i ==> (#[trigger] variants@[j])@ == self.variants@[j]@,
            decreases n - i,
        {
            variants.push(self.variants[i].duplicate());
            i = i + 1;
        }
        let r = ParallelConnections { valid: self.valid, variants };
        proof {
            assert(r@.variants =~= self@.variants);
        }
        r
    }
}

impl ParallelConnections {
    /// Whether this set of connections is valid.
    pub fn valid(&self) -> (r: bool)
        ensures
            r == self@.valid,
    {
        self.valid
    }

    /// The types of the variants, in order.
    pub fn types(&self) -> (r: Vec<String>)
        ensures
            r@.len() == self@.variants.len(),
            forall|i: int| 0 <= i < r@.len() ==> (#[trigger] r@[i])@ == self@.variants[i].ty,
    {
        let mut r: Vec<String> = Vec::new();
        let n = self.variants.len();
        let mut i: usize = 0;
        while i < n
            invariant
                n == self.variants@.len(),
                0 <= i <= n,
                r@.len() == i,
                forall|j: int| 0 <= j < i ==> (#[trigger] r@[j])@ == self@.variants[j].ty,
            decreases n - i,
        {
            r.push(self.variants[i].ty.clone());
            i = i + 1;
        }
        r
    }
}

/// A single token points into the map, at a live variant.
pub open spec fn token_ok(t: TokenV, m: Map<u128, ParallelConnectionsV>) -> bool {
    match t {
        TokenV::Link { id, idx } => m.dom().contains(id) && (idx as int) < m[id].variants.len(),
        TokenV::Text(_) => true,
    }
}

/// Every link token points into the map, at a live variant.
pub open spec fn tokens_wf(tokens: Seq<TokenV>, m: Map<u128, ParallelConnectionsV>) -> bool {
    forall|i: int| 0 <= i < tokens.len() ==> token_ok(#[trigger] tokens[i], m)
}

/// One map extends another: no entry is lost and no variant list shrinks.
pub open spec fn map_extends(
    m2: Map<u128, ParallelConnectionsV>,
    m1: Map<u128, ParallelConnectionsV>,
) -> bool {
    forall|id: u128|
        m1.dom().contains(id) ==> m2.dom().contains(id) && (#[trigger] m2[id]).variants.len()
            >= m1[id].variants.len()
}

pub proof fn lemma_tokens_wf_mono(
    tokens: Seq<TokenV>,
    m1: Map<u128, ParallelConnectionsV>,
    m2: Map<u128, ParallelConnectionsV>,
)
    requires
        tokens_wf(tokens, m1),
        map_extends(m2, m1),
    ensures
        tokens_wf(tokens, m2),
{
    assert forall|i: int| 0 <= i < tokens.len() implies token_ok(#[trigger] tokens[i], m2) by {
        assert(token_ok(tokens[i], m1));
        match tokens[i] {
            TokenV::Link { id, idx } => {
                assert(m1.dom().contains(id));
                assert(m2[id].variants.len() >= m1[id].variants.len());
            },
            TokenV::Text(_) => {},
        }
    }
}

/// Pushing a token that points into the map keeps a stream well-formed.
proof fn lemma_tokens_wf_push(
    v: Seq<ConnectionToken>,
    t: ConnectionToken,
    m: Map<u128, ParallelConnectionsV>,
)
    requires
        tokens_wf(v.map_values(|x: ConnectionToken| x@), m),
        token_ok(t@, m),
    ensures
        tokens_wf(v.push(t).map_values(|x: ConnectionToken| x@), m),
{
    let a = v.map_values(|x: ConnectionToken| x@);
    let b = v.push(t).map_values(|x: ConnectionToken| x@);
    assert(b =~= a.push(t@));
    assert forall|i: int| 0 <= i < b.len() implies token_ok(#[trigger] b[i], m) by {
        if i < a.len() {
            assert(token_ok(a[i], m));
        } else {
            assert(b[i] == t@);
        }
    }
}

/// Every entry of a freshly tokenised map is invalid and non-empty.
pub open spec fn map_initial(m: Map<u128, ParallelConnectionsV>) -> bool {
    forall|id: u128|
        m.dom().contains(id) ==> !(#[trigger] m[id]).valid && m[id].variants.len() >= 1
}

/// The exact text of one rendered link, fully qualified.
pub open spec fn spec_render_link(c: ConnectionV, id: u128, format: Format) -> Seq<char> {
    match format {
        Format::Markdown => seq!['['] + c.title + seq![']', '('] + c.ty + seq![':']
            + spec_id_str(id) + seq![')'],
        Format::Org => seq!['[', '['] + c.ty + seq![':'] + spec_id_str(id) + seq![']', '[']
            + c.title + seq![']', ']'],
    }
}

/// The exact text of a token stream: literal spans verbatim, links through
/// [`spec_render_link`].
pub open spec fn spec_render(
    tokens: Seq<TokenV>,
    m: Map<u128, ParallelConnectionsV>,
    format: Format,
) -> Seq<char>
    decreases tokens.len(),
{
    if tokens.len() == 0 {
        Seq::empty()
    } else {
        (match tokens[0] {
            TokenV::Text(t) => t,
            TokenV::Link { id, idx } => spec_render_link(m[id].variants[idx as int], id, format),
        }) + spec_render(tokens.drop_first(), m, format)
    }
}

pub proof fn lemma_render_snoc(
    s: Seq<TokenV>,
    t: TokenV,
    m: Map<u128, ParallelConnectionsV>,
    format: Format,
)
    ensures
        spec_render(s.push(t), m, format) == spec_render(s, m, format) + (match t {
            TokenV::Text(x) => x,
            TokenV::Link { id, idx } => spec_render_link(m[id].variants[idx as int], id, format),
        }),
    decreases s.len(),
{
    reveal_with_fuel(spec_render, 3);
    let piece = match t {
        TokenV::Text(x) => x,
        TokenV::Link { id, idx } => spec_render_link(m[id].variants[idx as int], id, format),
    };
    if s.len() == 0 {
        assert(s.push(t).drop_first() =~= Seq::<TokenV>::empty());
        assert(s.push(t)[0] == t);
        assert(piece + Seq::<char>::empty() =~= piece);
        assert(Seq::<char>::empty() + piece =~= piece);
    } else {
        assert(s.push(t)[0] == s[0]);
        assert(s.push(t).drop_first() =~= s.drop_first().push(t));
        lemma_render_snoc(s.drop_first(), t, m, format);
        let head = match s[0] {
            TokenV::Text(x) => x,
            TokenV::Link { id, idx } => spec_render_link(m[id].variants[idx as int], id, format),
        };
        assert(head + (spec_render(s.drop_first(), m, format) + piece) =~= (head + spec_render(
            s.drop_first(),
            m,
            format,
        )) + piece);
    }
}

/// The concatenation of a list of character spans.
pub open spec fn concat_chars(spans: Seq<Seq<char>>) -> Seq<char>
    decreases spans.len(),
{
    if spans.len() == 0 {
        Seq::empty()
    } else {
        spans[0] + concat_chars(spans.drop_first())
    }
}

pub proof fn lemma_concat_chars_snoc(spans: Seq<Seq<char>>, s: Seq<char>)
    ensures
        concat_chars(spans.push(s)) == concat_chars(spans) + s,
    decreases spans.len(),
{
    reveal_with_fuel(concat_chars, 3);
    if spans.len() == 0 {
        assert(spans.push(s).drop_first() =~= Seq::<Seq<char>>::empty());
        assert(spans.push(s)[0] == s);
        assert(s + Seq::<char>::empty() =~= s);
        assert(Seq::<char>::empty() + s =~= s);
    } else {
        assert(spans.push(s)[0] == spans[0]);
        assert(spans.push(s).drop_first() =~= spans.drop_first().push(s));
        lemma_concat_chars_snoc(spans.drop_first(), s);
        assert(spans[0] + (concat_chars(spans.drop_first()) + s) =~= (spans[0] + concat_chars(
            spans.drop_first(),
        )) + s);
    }
}

/// Each token corresponds to its source span: a literal span verbatim, a
/// link span parsing to exactly the variant the token points at.
pub open spec fn spans_correspond(
    tokens: Seq<TokenV>,
    m: Map<u128, ParallelConnectionsV>,
    spans: Seq<Seq<char>>,
    format: Format,
    link_types: Seq<String>,
    default_ty: Seq<char>,
) -> bool {
    &&& spans.len() == tokens.len()
    &&& forall|i: int|
        0 <= i < tokens.len() ==> match #[trigger] tokens[i] {
            TokenV::Text(t) => spans[i] == t,
            TokenV::Link { id, idx } => m.dom().contains(id) && (idx as int)
                < m[id].variants.len() && spec_parse_link(spans[i], format, link_types, default_ty)
                == Some((id, m[id].variants[idx as int])),
        }
}

/// The token stream is the given source text, cut into spans: they
/// concatenate back to it, and each token matches its own span.
pub open spec fn tokens_match_source(
    tokens: Seq<TokenV>,
    m: Map<u128, ParallelConnectionsV>,
    spans: Seq<Seq<char>>,
    source: Seq<char>,
    format: Format,
    link_types: Seq<String>,
    default_ty: Seq<char>,
) -> bool {
    &&& spans_correspond(tokens, m, spans, format, link_types, default_ty)
    &&& concat_chars(spans) == source
}

/// One connection map extends another without touching what is already
/// there: every existing entry's variants stay a prefix.
pub open spec fn map_extends_prefix(
    m2: Map<u128, ParallelConnectionsV>,
    m1: Map<u128, ParallelConnectionsV>,
) -> bool {
    forall|id: u128|
        #![trigger m1.dom().contains(id)]
        #![trigger m2.dom().contains(id)]
        m1.dom().contains(id) ==> m2.dom().contains(id) && m1[id].variants.len()
            <= m2[id].variants.len() && m1[id].variants == m2[id].variants.take(
            m1[id].variants.len() as int,
        )
}

/// Span correspondence survives appending variants to the map.
pub proof fn lemma_spans_correspond_mono(
    tokens: Seq<TokenV>,
    m1: Map<u128, ParallelConnectionsV>,
    m2: Map<u128, ParallelConnectionsV>,
    spans: Seq<Seq<char>>,
    format: Format,
    link_types: Seq<String>,
    default_ty: Seq<char>,
)
    requires
        spans_correspond(tokens, m1, spans, format, link_types, default_ty),
        map_extends_prefix(m2, m1),
    ensures
        spans_correspond(tokens, m2, spans, format, link_types, default_ty),
{
    assert forall|i: int|
        0 <= i < tokens.len() implies match #[trigger] tokens[i] {
        TokenV::Text(t) => spans[i] == t,
        TokenV::Link { id, idx } => m2.dom().contains(id) && (idx as int)
            < m2[id].variants.len() && spec_parse_link(spans[i], format, link_types, default_ty)
            == Some((id, m2[id].variants[idx as int])),
    } by {
        match tokens[i] {
            TokenV::Link { id, idx } => {
                assert(m1.dom().contains(id));
                assert(m1[id].variants == m2[id].variants.take(m1[id].variants.len() as int));
                assert(m1[id].variants[idx as int] == m2[id].variants[idx as int]);
            },
            TokenV::Text(_) => {},
        }
    }
}

/// Rendering a token stream whose link spans are already canonical
/// concatenates the spans back together.
proof fn lemma_render_spans(
    tokens: Seq<TokenV>,
    m: Map<u128, ParallelConnectionsV>,
    spans: Seq<Seq<char>>,
    format: Format,
)
    requires
        spans.len() == tokens.len(),
        forall|i: int|
            0 <= i < tokens.len() ==> match #[trigger] tokens[i] {
                TokenV::Text(t) => spans[i] == t,
                TokenV::Link { id, idx } => spans[i] == spec_render_link(
                    m[id].variants[idx as int],
                    id,
                    format,
                ),
            },
    ensures
        spec_render(tokens, m, format) == concat_chars(spans),
    decreases tokens.len(),
{
    if tokens.len() > 0 {
        assert forall|i: int|
            0 <= i < tokens.drop_first().len() implies match #[trigger] tokens.drop_first()[i] {
            TokenV::Text(t) => spans.drop_first()[i] == t,
            TokenV::Link { id, idx } => spans.drop_first()[i] == spec_render_link(
                m[id].variants[idx as int],
                id,
                format,
            ),
        } by {
            assert(tokens.drop_first()[i] == tokens[i + 1]);
            assert(spans.drop_first()[i] == spans[i + 1]);
        }
        lemma_render_spans(tokens.drop_first(), m, spans.drop_first(), format);
        assert(spans[0] == match tokens[0] {
            TokenV::Text(t) => t,
            TokenV::Link { id, idx } => spec_render_link(m[id].variants[idx as int], id, format),
        });
    }
}

/// Tokenising a document text and rendering it back is a textual fixed
/// point whenever every link in it is written canonically — fully qualified
/// type, canonical id spelling, current validated title — so that each link
/// span equals its own rendering. Literal spans are always kept verbatim,
/// and the spans concatenate to the source, so the rendering is the source.
/// Non-canonical links re-render canonically instead; that difference is
/// exactly what a corrective write persists.
pub proof fn lemma_round_trip_canonical(
    tokens: Seq<TokenV>,
    m: Map<u128, ParallelConnectionsV>,
    spans: Seq<Seq<char>>,
    source: Seq<char>,
    format: Format,
    link_types: Seq<String>,
    default_ty: Seq<char>,
)
    requires
        tokens_match_source(tokens, m, spans, source, format, link_types, default_ty),
        forall|i: int|
            0 <= i < tokens.len() ==> match #[trigger] tokens[i] {
                TokenV::Link { id, idx } => spans[i] == spec_render_link(
                    m[id].variants[idx as int],
                    id,
                    format,
                ),
                TokenV::Text(_) => true,
            },
    ensures
        spec_render(tokens, m, format) == source,
{
    assert forall|i: int|
        0 <= i < tokens.len() implies match #[trigger] tokens[i] {
        TokenV::Text(t) => spans[i] == t,
        TokenV::Link { id, idx } => spans[i] == spec_render_link(
            m[id].variants[idx as int],
            id,
            format,
        ),
    } by {}
    lemma_render_spans(tokens, m, spans, format);
}

/// Prefix extension is transitive.
pub proof fn lemma_prefix_trans(
    m3: Map<u128, ParallelConnectionsV>,
    m2: Map<u128, ParallelConnectionsV>,
    m1: Map<u128, ParallelConnectionsV>,
)
    requires
        map_extends_prefix(m3, m2),
        map_extends_prefix(m2, m1),
    ensures
        map_extends_prefix(m3, m1),
{
    assert forall|id: u128|
        m1.dom().contains(id) implies m3.dom().contains(id) && m1[id].variants.len() <= (
    #[trigger] m3[id]).variants.len() && m1[id].variants == m3[id].variants.take(
        m1[id].variants.len() as int,
    ) by {
        assert(m2.dom().contains(id) && m1[id].variants.len() <= m2[id].variants.len() && m1[
            id
        ].variants == m2[id].variants.take(m1[id].variants.len() as int));
        assert(m3.dom().contains(id) && m2[id].variants.len() <= m3[id].variants.len() && m2[
            id
        ].variants == m3[id].variants.take(m2[id].variants.len() as int));
        assert(m1[id].variants =~= m3[id].variants.take(m1[id].variants.len() as int));
    }
}

/// Renders one connection variant into the given format, fully qualifying
/// the link type and spelling the target id canonically.
pub(crate) fn render_link(c: &Connection, id: u128, format: Format) -> (r: String)
    ensures
        r@ == spec_render_link(c@, id, format),
{
    let id_str = crate::ids::id_to_string(id);
    match format {
        Format::Markdown => {
            let r = "[".to_owned()
                .concat(c.title.as_str())
                .concat("](")
                .concat(c.ty.as_str())
                .concat(":")
                .concat(id_str.as_str())
                .concat(")");
            proof {
                reveal_strlit("[");
                reveal_strlit("](");
                reveal_strlit(":");
                reveal_strlit(")");
                assert(r@ =~= spec_render_link(c@, id, format));
            }
            r
        },
        Format::Org => {
            let r = "[[".to_owned()
                .concat(c.ty.as_str())
                .concat(":")
                .concat(id_str.as_str())
                .concat("][")
                .concat(c.title.as_str())
                .concat("]]");
            proof {
                reveal_strlit("[[");
                reveal_strlit(":");
                reveal_strlit("][");
                reveal_strlit("]]");
                assert(r@ =~= spec_render_link(c@, id, format));
            }
            r
        },
    }
}

/// Extracts the subrange `[from, to)` of a character vector.
fn char_range(cs: &Vec<char>, from: usize, to: usize) -> (r: Vec<char>)
    requires
        from <= to <= cs@.len(),
    ensures
        r@ == cs@.subrange(from as int, to as int),
{
    let mut r: Vec<char> = Vec::new();
    let mut i = from;
    while i < to
        invariant
            from <= i <= to <= cs@.len(),
            r@.len() == i - from,
            forall|j: int| 0 <= j < r@.len() ==> r@[j] == cs@[from + j],
        decreases to - i,
    {
        r.push(cs[i]);
        i = i + 1;
    }
    proof {
        assert(r@ =~= cs@.subrange(from as int, to as int));
    }
    r
}

/// The first position where `a` immediately followed by `b` occurs.
pub open spec fn spec_find_pair(s: Seq<char>, a: char, b: char) -> int
    decreases s.len(),
{
    if s.len() < 2 {
        -1
    } else if s[0] == a && s[1] == b {
        0
    } else {
        let r = spec_find_pair(s.drop_first(), a, b);
        if r == -1 {
            -1
        } else {
            r + 1
        }
    }
}

/// The first position of `c`.
pub open spec fn spec_find_char(s: Seq<char>, c: char) -> int
    decreases s.len(),
{
    if s.len() == 0 {
        -1
    } else if s[0] == c {
        0
    } else {
        let r = spec_find_char(s.drop_first(), c);
        if r == -1 {
            -1
        } else {
            r + 1
        }
    }
}

proof fn lemma_find_pair_at(s: Seq<char>, a: char, b: char, m: int)
    requires
        0 <= m < s.len() - 1,
        s[m] == a && s[m + 1] == b,
        forall|j: int| 0 <= j < m ==> !((#[trigger] s[j]) == a && s[j + 1] == b),
    ensures
        spec_find_pair(s, a, b) == m,
    decreases s.len(),
{
    if m > 0 {
        assert forall|j: int|
            0 <= j < m - 1 implies !((#[trigger] s.drop_first()[j]) == a && s.drop_first()[j + 1]
            == b) by {
            assert(s[j + 1] == s.drop_first()[j]);
            assert(s[j + 2] == s.drop_first()[j + 1]);
        }
        assert(s.drop_first()[m - 1] == a && s.drop_first()[m] == b);
        lemma_find_pair_at(s.drop_first(), a, b, m - 1);
    }
}

proof fn lemma_find_pair_none(s: Seq<char>, a: char, b: char)
    requires
        forall|j: int| 0 <= j < s.len() - 1 ==> !((#[trigger] s[j]) == a && s[j + 1] == b),
    ensures
        spec_find_pair(s, a, b) == -1,
    decreases s.len(),
{
    if s.len() >= 2 {
        assert(!(s[0] == a && s[1] == b));
        assert forall|j: int|
            0 <= j < s.drop_first().len() - 1 implies !((#[trigger] s.drop_first()[j]) == a
                && s.drop_first()[j + 1] == b) by {
            assert(s[j + 1] == s.drop_first()[j]);
            assert(s[j + 2] == s.drop_first()[j + 1]);
        }
        lemma_find_pair_none(s.drop_first(), a, b);
    }
}

proof fn lemma_find_char_at(s: Seq<char>, c: char, m: int)
    requires
        0 <= m < s.len(),
        s[m] == c,
        forall|j: int| 0 <= j < m ==> s[j] != c,
    ensures
        spec_find_char(s, c) == m,
    decreases s.len(),
{
    if m > 0 {
        assert forall|j: int| 0 <= j < m - 1 implies s.drop_first()[j] != c by {
            assert(s[j + 1] == s.drop_first()[j]);
        }
        assert(s.drop_first()[m - 1] == c);
        lemma_find_char_at(s.drop_first(), c, m - 1);
    }
}

proof fn lemma_find_char_none(s: Seq<char>, c: char)
    requires
        forall|j: int| 0 <= j < s.len() ==> s[j] != c,
    ensures
        spec_find_char(s, c) == -1,
    decreases s.len(),
{
    if s.len() > 0 {
        assert forall|j: int| 0 <= j < s.drop_first().len() implies s.drop_first()[j] != c by {
            assert(s[j + 1] == s.drop_first()[j]);
        }
        lemma_find_char_none(s.drop_first(), c);
    }
}

/// Splitting the `type:id` section of a link around its first `:`: a typed
/// link must use a configured type; an untyped one takes the default. The
/// target must parse as an id.
pub open spec fn spec_split_type(
    rest: Seq<char>,
    title: Seq<char>,
    link_types: Seq<String>,
    default_ty: Seq<char>,
) -> Option<(u128, ConnectionV)> {
    let c = spec_find_char(rest, ':');
    if c != -1 {
        let ty = rest.subrange(0, c);
        if !seq_contains_string(link_types, ty) {
            None
        } else {
            match crate::ids::spec_parse_id(rest.subrange(c + 1, rest.len() as int)) {
                Some(id) => Some((id, ConnectionV { ty, title })),
                None => None,
            }
        }
    } else {
        match crate::ids::spec_parse_id(rest) {
            Some(id) => Some((id, ConnectionV { ty: default_ty, title })),
            None => None,
        }
    }
}

/// What one full link text parses to: `[title](type:id)` in Markdown,
/// `[[type:id][title]]` in Org, split at the *first* `](` / `][` and the
/// first `:`; anything malformed is no connection.
pub open spec fn spec_parse_link(
    s: Seq<char>,
    format: Format,
    link_types: Seq<String>,
    default_ty: Seq<char>,
) -> Option<(u128, ConnectionV)> {
    match format {
        Format::Markdown => {
            if s.len() < 2 || s[0] != '[' || s[s.len() - 1] != ')' {
                None
            } else {
                let m = spec_find_pair(s, ']', '(');
                if m == -1 {
                    None
                } else {
                    spec_split_type(
                        s.subrange(m + 2, s.len() - 1),
                        s.subrange(1, m),
                        link_types,
                        default_ty,
                    )
                }
            }
        },
        Format::Org => {
            if s.len() < 4 || s[0] != '[' || s[1] != '[' || s[s.len() - 1] != ']' || s[s.len()
                - 2] != ']' {
                None
            } else {
                let m = spec_find_pair(s, ']', '[');
                if m == -1 || m < 2 || m + 2 > s.len() - 2 {
                    None
                } else {
                    spec_split_type(
                        s.subrange(2, m),
                        s.subrange(m + 2, s.len() - 2),
                        link_types,
                        default_ty,
                    )
                }
            }
        },
    }
}

/// The view of a parsed link.
pub open spec fn opt_link_view(r: Option<(u128, Connection)>) -> Option<(u128, ConnectionV)> {
    match r {
        Some((id, c)) => Some((id, c@)),
        None => None,
    }
}

/// Parses a single full link text of the form `[title](type:id)` in Markdown
/// or `[[type:id][title]]` in Org. The type must be one of the configured
/// link types (absent types take the default), and the target must be a
/// well-formed id; anything else is not a connection and stays literal text.
fn parse_link(link: &Vec<char>, format: Format, config: &Config) -> (r: Option<(u128, Connection)>)
    requires
        config.valid(),
    ensures
        opt_link_view(r) == spec_parse_link(
            link@,
            format,
            config.link_types@,
            config.default_link_type@,
        ),
{
    let n = link.len();
    // Locate the title and the `type:id` section, by format.
    let (title, rest) = match format {
        Format::Markdown => {
            // Format: [Title](ty:link)
            if n < 2 || link[0] != '[' || link[n - 1] != ')' {
                return None;
            }
            // Find the first `](`.
            let mut m: usize = 0;
            let mut found = false;
            while m < n - 1 && !found
                invariant
                    0 <= m <= n,
                    2 <= n == link@.len(),
                    found ==> m + 1 < n && link@[m as int] == ']' && link@[m + 1] == '(',
                    forall|j: int| 0 <= j < m ==> !((#[trigger] link@[j]) == ']' && link@[j + 1] == '('),
                decreases n - m, (if found { 0int } else { 1int }),
            {
                if link[m] == ']' && link[m + 1] == '(' {
                    found = true;
                } else {
                    m = m + 1;
                }
            }
            if !found {
                proof {
                    lemma_find_pair_none(link@, ']', '(');
                }
                return None;
            }
            proof {
                lemma_find_pair_at(link@, ']', '(', m as int);
            }
            (char_range(link, 1, m), char_range(link, m + 2, n - 1))
        },
        Format::Org => {
            // Format: [[ty:link][Title]]
            if n < 4 || link[0] != '[' || link[1] != '[' || link[n - 1] != ']' || link[n - 2]
                != ']' {
                return None;
            }
            let mut m: usize = 0;
            let mut found = false;
            while m < n - 1 && !found
                invariant
                    0 <= m <= n,
                    4 <= n == link@.len(),
                    found ==> m + 1 < n && link@[m as int] == ']' && link@[m + 1] == '[',
                    forall|j: int| 0 <= j < m ==> !((#[trigger] link@[j]) == ']' && link@[j + 1] == '['),
                decreases n - m, (if found { 0int } else { 1int }),
            {
                if link[m] == ']' && link[m + 1] == '[' {
                    found = true;
                } else {
                    m = m + 1;
                }
            }
            proof {
                if found {
                    lemma_find_pair_at(link@, ']', '[', m as int);
                } else {
                    lemma_find_pair_none(link@, ']', '[');
                }
            }
            if !found || m < 2 || m + 2 > n - 2 {
                return None;
            }
            (char_range(link, m + 2, n - 2), char_range(link, 2, m))
        },
    };
    // Split the `type:id` section around the first `:`, if any.
    let rn = rest.len();
    let mut c: usize = 0;
    let mut has_colon = false;
    while c < rn && !has_colon
        invariant
            0 <= c <= rn,
            rn == rest@.len(),
            has_colon ==> c < rn && rest@[c as int] == ':',
            forall|j: int| 0 <= j < c ==> rest@[j] != ':',
        decreases rn - c, (if has_colon { 0int } else { 1int }),
    {
        if rest[c] == ':' {
            has_colon = true;
        } else {
            c = c + 1;
        }
    }
    proof {
        if has_colon {
            lemma_find_char_at(rest@, ':', c as int);
        } else {
            lemma_find_char_none(rest@, ':');
        }
    }
    let (ty, target_chars) = if has_colon {
        // A typed link; the type must be configured.
        let ty_chars = char_range(&rest, 0, c);
        let ty = chars_to_string(&ty_chars);
        if !vec_contains_string(&config.link_types, &ty) {
            // Not a configured link type (URL links land here too).
            return None;
        }
        (ty, char_range(&rest, c + 1, rn))
    } else {
        // A generic link: the default link type applies.
        (config.default_link_type.clone(), rest)
    };
    let target = chars_to_string(&target_chars);
    match parse_id(target.as_str()) {
        Some(id) => Some((id, Connection { ty, title: chars_to_string(&title) })),
        None => None,
    }
}

/// A string tokenised around its links. The tokens plus a connection map
/// reproduce the original string through [`spec_render`].
#[derive(PartialEq, Eq, Debug, Clone)]
pub struct ConnectedString {
    pub inner: Vec<ConnectionToken>,
}

impl View for ConnectedString {
    type V = Seq<TokenV>;

    open spec fn view(&self) -> Seq<TokenV> {
        self.inner@.map_values(|t: ConnectionToken| t@)
    }
}

impl ConnectionToken {
    pub fn duplicate(&self) -> (r: Self)
        ensures
            r@ == self@,
    {
        match self {
            ConnectionToken::Text(t) => ConnectionToken::Text(t.clone()),
            ConnectionToken::Link { id, idx } => ConnectionToken::Link { id: *id, idx: *idx },
        }
    }
}

/// Where the scanner stands while walking a string.
enum ScanState {
    Outside,
    Title,
    Target,
}

impl ConnectedString {
    pub fn duplicate(&self) -> (r: Self)
        ensures
            r@ == self@,
    {
        let mut inner: Vec<ConnectionToken> = Vec::new();
        let n = self.inner.len();
        let mut i: usize = 0;
        while i < n
            invariant
                n == self.inner@.len(),
                0 <= i <= n,
                inner@.len() == i,
                forall|j: int| 0 <= j < i ==> (#[trigger] inner@[j])@ == self.inner@[j]@,
            decreases n - i,
        {
            inner.push(self.inner[i].duplicate());
            i = i + 1;
        }
        let r = ConnectedString { inner };
        proof {
            assert(r@ =~= self@);
        }
        r
    }

    /// Parses the provided string into a token stream and a map of the
    /// connections found in it. The stream is the input cut into spans:
    /// literal text verbatim, and every link token standing for a span that
    /// parses to exactly the variant it points at. Every entry of the map
    /// starts invalid; a string without a `[` stays one literal span (or
    /// none, when empty).
    #[verifier::loop_isolation(false)]
    #[verifier::rlimit(100)]
    pub fn from_str(target: &str, format: Format, config: &Config) -> (r: (
        ConnectedString,
        KeyMap<u128, ParallelConnections>,
    ))
        requires
            config.valid(),
        ensures
            r.1.wf(),
            tokens_wf(r.0@, r.1@),
            map_initial(r.1@),
            exists|spans: Seq<Seq<char>>| #[trigger]
                tokens_match_source(
                    r.0@,
                    r.1@,
                    spans,
                    target@,
                    format,
                    config.link_types@,
                    config.default_link_type@,
                ),
            (forall|i: int| 0 <= i < target@.len() ==> target@[i] != '[') ==> {
                &&& r.1@ == Map::<u128, ParallelConnectionsV>::empty()
                &&& r.0@ == (if target@.len() == 0 {
                    Seq::<TokenV>::empty()
                } else {
                    seq![TokenV::Text(target@)]
                })
            },
    {
        let ghost lts = config.link_types@;
        let ghost dty = config.default_link_type@;
        let cs = string_to_chars(target);
        let n = cs.len();
        let mut tokens: Vec<ConnectionToken> = Vec::new();
        let ghost mut spans: Seq<Seq<char>> = Seq::empty();
        let mut connections: KeyMap<u128, ParallelConnections> = KeyMap::new();
        let mut state = ScanState::Outside;
        // The full text of the link being scanned, including delimiters, so
        // it can stay a literal span if it turns out not to be a link.
        let mut curr_match: Vec<char> = Vec::new();
        // The literal text between links.
        let mut curr_str: Vec<char> = Vec::new();
        let mut i: usize = 0;
        proof {
            assert(concat_chars(spans) + curr_str@ + curr_match@ =~= cs@.take(0));
        }
        while i < n
            invariant
                config.valid(),
                lts == config.link_types@,
                dty == config.default_link_type@,
                n == cs@.len(),
                cs@ == target@,
                0 <= i <= n,
                connections.wf(),
                map_initial(connections@),
                tokens_wf(tokens@.map_values(|t: ConnectionToken| t@), connections@),
                spans_correspond(
                    tokens@.map_values(|t: ConnectionToken| t@),
                    connections@,
                    spans,
                    format,
                    lts,
                    dty,
                ),
                concat_chars(spans) + curr_str@ + curr_match@ == cs@.take(i as int),
                state is Outside ==> curr_match@.len() == 0,
                !(state is Outside) ==> curr_str@.len() == 0,
                (forall|j: int| 0 <= j < i ==> cs@[j] != '[') ==> {
                    &&& state is Outside
                    &&& tokens@.len() == 0
                    &&& curr_str@ == cs@.take(i as int)
                    &&& curr_match@.len() == 0
                    &&& connections@ == Map::<u128, ParallelConnectionsV>::empty()
                },
            decreases n - i,
        {
            let c = cs[i];
            let ghost i0 = i as int;
            let ghost concat0 = concat_chars(spans);
            let ghost cstr0 = curr_str@;
            let ghost cm0 = curr_match@;
            match state {
                ScanState::Outside => {
                    let link_start = match format {
                        Format::Markdown => c == '[',
                        Format::Org => c == '[' && i + 1 < n && cs[i + 1] == '[',
                    };
                    if link_start {
                        // The start of some kind of link.
                        state = ScanState::Title;
                        curr_match.push(c);
                        if matches!(format, Format::Org) {
                            curr_match.push(cs[i + 1]);
                            i = i + 1;
                        }
                        let span = ConnectionToken::Text(chars_to_string(&curr_str));
                        proof {
                            lemma_tokens_wf_push(tokens@, span, connections@);
                        }
                        let ghost tks0 = tokens@.map_values(|t: ConnectionToken| t@);
                        tokens.push(span);
                        curr_str = Vec::new();
                        proof {
                            lemma_concat_chars_snoc(spans, cstr0);
                            spans = spans.push(cstr0);
                            let tks = tokens@.map_values(|t: ConnectionToken| t@);
                            assert(tks =~= tks0.push(TokenV::Text(cstr0)));
                            assert forall|j: int|
                                0 <= j < tks.len() implies match #[trigger] tks[j] {
                                TokenV::Text(t) => spans[j] == t,
                                TokenV::Link { id, idx } => connections@.dom().contains(id) && (
                                idx as int) < connections@[id].variants.len() && spec_parse_link(
                                    spans[j],
                                    format,
                                    lts,
                                    dty,
                                ) == Some((id, connections@[id].variants[idx as int])),
                            } by {
                                if j < tks0.len() {
                                    assert(tks[j] == tks0[j]);
                                }
                            }
                            assert(concat_chars(spans) + curr_str@ + curr_match@ =~= cs@.take(
                                i + 1,
                            ));
                        }
                    } else {
                        curr_str.push(c);
                        proof {
                            assert(concat_chars(spans) + curr_str@ + curr_match@ =~= cs@.take(
                                i + 1,
                            ));
                        }
                    }
                },
                // Inside a title, look for the delimiter before the target.
                ScanState::Title => {
                    let title_end = match format {
                        Format::Markdown => c == ']' && i + 1 < n && cs[i + 1] == '(',
                        Format::Org => c == ']' && i + 1 < n && cs[i + 1] == '[',
                    };
                    if title_end {
                        state = ScanState::Target;
                        curr_match.push(c);
                        curr_match.push(cs[i + 1]);
                        i = i + 1;
                    } else {
                        curr_match.push(c);
                    }
                    proof {
                        assert(concat_chars(spans) + curr_str@ + curr_match@ =~= cs@.take(i + 1));
                    }
                },
                // Inside a link target, wait for the end.
                ScanState::Target => {
                    let link_end = match format {
                        Format::Markdown => c == ')',
                        Format::Org => c == ']' && i + 1 < n && cs[i + 1] == ']',
                    };
                    if link_end {
                        state = ScanState::Outside;
                        curr_match.push(c);
                        if matches!(format, Format::Org) {
                            curr_match.push(cs[i + 1]);
                            i = i + 1;
                        }
                        let ghost cm = curr_match@;
                        // A full candidate link: parse it.
                        match parse_link(&curr_match, format, config) {
                            Some((id, conn)) => {
                                let ghost connv = conn@;
                                let ghost before = connections@;
                                let ghost tks_before = tokens@.map_values(
                                    |t: ConnectionToken| t@,
                                );
                                let new_idx: usize;
                                match connections.remove(&id) {
                                    Some(mut pc) => {
                                        pc.variants.push(conn);
                                        new_idx = pc.variants.len() - 1;
                                        proof {
                                            assert(pc@.variants =~= before[id].variants.push(
                                                connv,
                                            ));
                                        }
                                        connections.insert(id, pc);
                                    },
                                    None => {
                                        let mut variants: Vec<Connection> = Vec::new();
                                        variants.push(conn);
                                        let pc = ParallelConnections { valid: false, variants };
                                        proof {
                                            assert(pc@.variants.len() == 1);
                                        }
                                        connections.insert(id, pc);
                                        new_idx = 0;
                                    },
                                }
                                let lt = ConnectionToken::Link { id, idx: new_idx };
                                proof {
                                    assert(map_extends(connections@, before));
                                    assert(map_extends_prefix(connections@, before)) by {
                                        assert forall|q: u128|
                                            before.dom().contains(q) implies connections@.dom()
                                            .contains(q) && before[q].variants.len() <= (
                                        #[trigger] connections@[q]).variants.len() && before[
                                            q
                                        ].variants == connections@[q].variants.take(
                                            before[q].variants.len() as int,
                                        ) by {
                                            if q == id {
                                                assert(before[q].variants =~= connections@[
                                                    q
                                                ].variants.take(before[q].variants.len() as int));
                                            } else {
                                                assert(before[q].variants =~= connections@[
                                                    q
                                                ].variants.take(before[q].variants.len() as int));
                                            }
                                        }
                                    }
                                    lemma_tokens_wf_mono(tks_before, before, connections@);
                                    lemma_spans_correspond_mono(
                                        tks_before,
                                        before,
                                        connections@,
                                        spans,
                                        format,
                                        lts,
                                        dty,
                                    );
                                    assert(token_ok(lt@, connections@));
                                    lemma_tokens_wf_push(tokens@, lt, connections@);
                                }
                                let ghost tks0 = tokens@.map_values(|t: ConnectionToken| t@);
                                tokens.push(lt);
                                proof {
                                    lemma_concat_chars_snoc(spans, cm);
                                    spans = spans.push(cm);
                                    let tks = tokens@.map_values(|t: ConnectionToken| t@);
                                    assert(tks =~= tks0.push(
                                        (TokenV::Link { id, idx: new_idx }),
                                    ));
                                    assert(connections@[id].variants[new_idx as int] == connv);
                                    assert(spec_parse_link(cm, format, lts, dty) == Some(
                                        (id, connv),
                                    ));
                                    assert forall|j: int|
                                        0 <= j < tks.len() implies match #[trigger] tks[j] {
                                        TokenV::Text(t) => spans[j] == t,
                                        TokenV::Link { id: id2, idx: idx2 } => connections@.dom()
                                            .contains(id2) && (idx2 as int) < connections@[
                                            id2
                                        ].variants.len() && spec_parse_link(
                                            spans[j],
                                            format,
                                            lts,
                                            dty,
                                        ) == Some(
                                            (id2, connections@[id2].variants[idx2 as int]),
                                        ),
                                    } by {
                                        if j < tks0.len() {
                                            assert(tks[j] == tks0[j]);
                                        }
                                    }
                                }
                            },
                            None => {
                                // Not actually a connection: keep it literal.
                                let span = ConnectionToken::Text(chars_to_string(&curr_match));
                                proof {
                                    lemma_tokens_wf_push(tokens@, span, connections@);
                                }
                                let ghost tks0 = tokens@.map_values(|t: ConnectionToken| t@);
                                tokens.push(span);
                                proof {
                                    lemma_concat_chars_snoc(spans, cm);
                                    spans = spans.push(cm);
                                    let tks = tokens@.map_values(|t: ConnectionToken| t@);
                                    assert(tks =~= tks0.push(TokenV::Text(cm)));
                                    assert forall|j: int|
                                        0 <= j < tks.len() implies match #[trigger] tks[j] {
                                        TokenV::Text(t) => spans[j] == t,
                                        TokenV::Link { id, idx } => connections@.dom().contains(
                                            id,
                                        ) && (idx as int) < connections@[id].variants.len()
                                            && spec_parse_link(spans[j], format, lts, dty)
                                            == Some((id, connections@[id].variants[idx as int])),
                                    } by {
                                        if j < tks0.len() {
                                            assert(tks[j] == tks0[j]);
                                        }
                                    }
                                }
                            },
                        }
                        curr_match = Vec::new();
                        proof {
                            assert(concat_chars(spans) + curr_str@ + curr_match@ =~= cs@.take(
                                i + 1,
                            ));
                        }
                    } else {
                        curr_match.push(c);
                        proof {
                            assert(concat_chars(spans) + curr_str@ + curr_match@ =~= cs@.take(
                                i + 1,
                            ));
                        }
                    }
                },
            }
            i = i + 1;
        }
        // An extant string or unfinished link match becomes a trailing
        // literal span (only one of the two is ever populated).
        if curr_str.len() > 0 {
            let span = ConnectionToken::Text(chars_to_string(&curr_str));
            proof {
                lemma_tokens_wf_push(tokens@, span, connections@);
            }
            let ghost tks0 = tokens@.map_values(|t: ConnectionToken| t@);
            let ghost cstr = curr_str@;
            tokens.push(span);
            proof {
                lemma_concat_chars_snoc(spans, cstr);
                spans = spans.push(cstr);
                let tks = tokens@.map_values(|t: ConnectionToken| t@);
                assert(tks =~= tks0.push(TokenV::Text(cstr)));
                assert forall|j: int|
                    0 <= j < tks.len() implies match #[trigger] tks[j] {
                    TokenV::Text(t) => spans[j] == t,
                    TokenV::Link { id, idx } => connections@.dom().contains(id) && (idx as int)
                        < connections@[id].variants.len() && spec_parse_link(
                        spans[j],
                        format,
                        lts,
                        dty,
                    ) == Some((id, connections@[id].variants[idx as int])),
                } by {
                    if j < tks0.len() {
                        assert(tks[j] == tks0[j]);
                    }
                }
            }
        }
        if curr_match.len() > 0 {
            let span = ConnectionToken::Text(chars_to_string(&curr_match));
            proof {
                lemma_tokens_wf_push(tokens@, span, connections@);
            }
            let ghost tks0 = tokens@.map_values(|t: ConnectionToken| t@);
            let ghost cm = curr_match@;
            tokens.push(span);
            proof {
                lemma_concat_chars_snoc(spans, cm);
                spans = spans.push(cm);
                let tks = tokens@.map_values(|t: ConnectionToken| t@);
                assert(tks =~= tks0.push(TokenV::Text(cm)));
                assert forall|j: int|
                    0 <= j < tks.len() implies match #[trigger] tks[j] {
                    TokenV::Text(t) => spans[j] == t,
                    TokenV::Link { id, idx } => connections@.dom().contains(id) && (idx as int)
                        < connections@[id].variants.len() && spec_parse_link(
                        spans[j],
                        format,
                        lts,
                        dty,
                    ) == Some((id, connections@[id].variants[idx as int])),
                } by {
                    if j < tks0.len() {
                        assert(tks[j] == tks0[j]);
                    }
                }
            }
        }
        let r = ConnectedString { inner: tokens };
        proof {
            assert(cs@.take(n as int) =~= target@);
            assert(concat_chars(spans) =~= target@);
            if forall|j: int| 0 <= j < target@.len() ==> target@[j] != '[' {
                if target@.len() == 0 {
                    assert(r@ =~= Seq::<TokenV>::empty());
                } else {
                    assert(r@ =~= seq![TokenV::Text(target@)]);
                }
            }
        }
        let out = (r, connections);
        proof {
            assert(tokens_match_source(
                out.0@,
                out.1@,
                spans,
                target@,
                format,
                config.link_types@,
                config.default_link_type@,
            ));
        }
        out
    }

    /// Converts this stream back into a string, rendering every link from
    /// the given map.
    pub fn to_string(&self, connections: &KeyMap<u128, ParallelConnections>, format: Format) -> (r:
        String)
        requires
            connections.wf(),
            tokens_wf(self@, connections@),
        ensures
            r@ == spec_render(self@, connections@, format),
    {
        let mut out = String::new();
        let n = self.inner.len();
        let mut i: usize = 0;
        while i < n
            invariant
                connections.wf(),
                tokens_wf(self@, connections@),
                n == self.inner@.len(),
                0 <= i <= n,
                out@ == spec_render(self@.take(i as int), connections@, format),
            decreases n - i,
        {
            proof {
                assert(self@.take(i + 1) =~= self@.take(i as int).push(self@[i as int]));
                lemma_render_snoc(self@.take(i as int), self@[i as int], connections@, format);
            }
            match &self.inner[i] {
                ConnectionToken::Text(t) => {
                    out.append(t.as_str());
                },
                ConnectionToken::Link { id, idx } => {
                    proof {
                        assert(self@[i as int] matches TokenV::Link { id: lid, idx: lidx }
                            && lid == *id && lidx == *idx);
                    }
                    match connections.get(id) {
                        Some(pc) => {
                            let rendered = render_link(&pc.variants[*idx], *id, format);
                            proof {
                                assert(pc.variants@[*idx as int]@ == connections@[*id].variants[
                                    *idx as int
                                ]);
                            }
                            out.append(rendered.as_str());
                        },
                        None => {
                            // Excluded by `tokens_wf`.
                        },
                    }
                },
            }
            i = i + 1;
        }
        proof {
            assert(self@.take(n as int) =~= self@);
        }
        out
    }
}


/// Tokenising and re-rendering a string without links is a textual fixed
/// point: such a string becomes a single literal span (or none, when empty),
/// and rendering literal spans concatenates them verbatim. Together with the
/// link-free clause of [`ConnectedString::from_str`], a document with no
/// links round-trips exactly. (A document with links round-trips only up to
/// the canonical spelling of ids and fully qualified link types, which is
/// what a corrective write is for.)
pub proof fn lemma_link_free_round_trip(
    s: Seq<char>,
    m: Map<u128, ParallelConnectionsV>,
    format: Format,
)
    ensures
        spec_render(seq![TokenV::Text(s)], m, format) == s,
        spec_render(Seq::<TokenV>::empty(), m, format) == Seq::<char>::empty(),
{
    reveal_with_fuel(spec_render, 3);
    assert(seq![TokenV::Text(s)].drop_first() =~= Seq::<TokenV>::empty());
    assert(s + Seq::<char>::empty() =~= s);
}

/// The connected properties of a single node within a document tree.
pub struct SingleConnectedNode {
    /// The tokenised title of the node.
    pub title: ConnectedString,
    /// The tokenised body of the node, if it exists.
    pub body: Option<ConnectedString>,
    /// The unified map of connections for both the title and body.
    pub connections: KeyMap<u128, ParallelConnections>,
    /// The position of the node in its tree, as child indices from the root.
    pub position: Vec<usize>,
    /// The ids of other nodes which connect to this one.
    pub backlinks: KeySet<u128>,
}

#[verifier::ext_equal]
pub struct SingleConnectedNodeV {
    pub title: Seq<TokenV>,
    pub body: Option<Seq<TokenV>>,
    pub connections: Map<u128, ParallelConnectionsV>,
    pub position: Seq<usize>,
    pub backlinks: Set<u128>,
}

impl View for SingleConnectedNode {
    type V = SingleConnectedNodeV;

    open spec fn view(&self) -> SingleConnectedNodeV {
        SingleConnectedNodeV {
            title: self.title@,
            body: match self.body {
                Some(ref b) => Some(b@),
                None => None,
            },
            connections: self.connections@,
            position: self.position@,
            backlinks: self.backlinks@,
        }
    }
}

impl Stored for SingleConnectedNode {
    open spec fn inv(&self) -> bool {
        &&& self.connections.wf()
        &&& self.backlinks.wf()
        &&& tokens_wf(self.title@, self.connections@)
        &&& match self.body {
            Some(ref b) => tokens_wf(b@, self.connections@),
            None => true,
        }
    }

    fn duplicate(&self) -> (r: Self)
        ensures
            r@ == self@,
            r.inv(),
    {
        let body = match &self.body {
            Some(b) => Some(b.duplicate()),
            None => None,
        };
        SingleConnectedNode {
            title: self.title.duplicate(),
            body,
            connections: self.connections.duplicate(),
            position: dup_positions(&self.position),
            backlinks: self.backlinks.duplicate(),
        }
    }
}

/// A copy of a position vector.
pub(crate) fn dup_positions(p: &Vec<usize>) -> (r: Vec<usize>)
    ensures
        r@ == p@,
{
    let mut r: Vec<usize> = Vec::new();
    let n = p.len();
    let mut i: usize = 0;
    while i < n
        invariant
            n == p@.len(),
            0 <= i <= n,
            r@.len() == i,
            forall|j: int| 0 <= j < i ==> r@[j] == p@[j],
        decreases n - i,
    {
        r.push(p[i]);
        i = i + 1;
    }
    proof {
        assert(r@ =~= p@);
    }
    r
}

/// A freshly tokenised node: no backlinks, and every connection invalid.
pub open spec fn scn_initial(s: SingleConnectedNodeV) -> bool {
    s.backlinks == Set::<u128>::empty() && map_initial(s.connections)
}

impl SingleConnectedNode {
    /// Creates a new [`SingleConnectedNode`] from the title and body of one
    /// node, tokenising both into a single connection map: the title tokens
    /// are the title text cut into spans, the body tokens likewise for the
    /// body text, and body variants are appended after title variants for
    /// the same target.
    #[verifier::loop_isolation(false)]
    #[verifier::rlimit(100)]
    pub fn new(
        title_str: String,
        body_str: Option<String>,
        position: Vec<usize>,
        format: Format,
        config: &Config,
    ) -> (r: Self)
        requires
            config.valid(),
        ensures
            r.inv(),
            r@.position == position@,
            scn_initial(r@),
            exists|spans: Seq<Seq<char>>| #[trigger]
                tokens_match_source(
                    r@.title,
                    r@.connections,
                    spans,
                    title_str@,
                    format,
                    config.link_types@,
                    config.default_link_type@,
                ),
            match body_str {
                Some(b) => r@.body is Some && exists|spans: Seq<Seq<char>>| #[trigger]
                    tokens_match_source(
                        r@.body.unwrap(),
                        r@.connections,
                        spans,
                        b@,
                        format,
                        config.link_types@,
                        config.default_link_type@,
                    ),
                None => r@.body is None,
            },
    {
        let ghost lts = config.link_types@;
        let ghost dty = config.default_link_type@;
        let (title, mut map) = ConnectedString::from_str(title_str.as_str(), format, config);
        let ghost tmap0 = map@;
        let ghost tspans = choose|sp: Seq<Seq<char>>| #[trigger]
            tokens_match_source(title@, tmap0, sp, title_str@, format, lts, dty);
        proof {
            assert(exists|sp: Seq<Seq<char>>| #[trigger]
                tokens_match_source(title@, tmap0, sp, title_str@, format, lts, dty));
            assert(map_extends_prefix(map@, tmap0)) by {
                assert forall|q: u128|
                    tmap0.dom().contains(q) implies map@.dom().contains(q)
                    && tmap0[q].variants.len() <= (#[trigger] map@[q]).variants.len() && tmap0[
                    q
                ].variants == map@[q].variants.take(tmap0[q].variants.len() as int) by {
                    assert(tmap0[q].variants =~= tmap0[q].variants.take(
                        tmap0[q].variants.len() as int,
                    ));
                }
            }
        }
        let ghost mut body_spans: Seq<Seq<char>> = Seq::empty();
        let body = match body_str {
            Some(ref b) => {
                let (bcs, bmap) = ConnectedString::from_str(b.as_str(), format, config);
                proof {
                    assert(exists|sp: Seq<Seq<char>>| #[trigger]
                        tokens_match_source(bcs@, bmap@, sp, b@, format, lts, dty));
                }
                let ghost bspans = choose|sp: Seq<Seq<char>>| #[trigger]
                    tokens_match_source(bcs@, bmap@, sp, b@, format, lts, dty);
                // Re-home every body token into the shared map: each body
                // variant is appended to the title map's entry for the same
                // target, giving it a fresh variant index.
                let mut new_tokens: Vec<ConnectionToken> = Vec::new();
                let ghost mut out_spans: Seq<Seq<char>> = Seq::empty();
                let nb = bcs.inner.len();
                let mut i: usize = 0;
                while i < nb
                    invariant
                        config.valid(),
                        lts == config.link_types@,
                        dty == config.default_link_type@,
                        bmap.wf(),
                        map.wf(),
                        map_initial(map@),
                        map_initial(bmap@),
                        tokens_wf(bcs@, bmap@),
                        tokens_wf(title@, map@),
                        tokens_wf(new_tokens@.map_values(|t: ConnectionToken| t@), map@),
                        spans_correspond(bcs@, bmap@, bspans, format, lts, dty),
                        bspans.len() == bcs.inner@.len(),
                        map_extends_prefix(map@, tmap0),
                        new_tokens@.len() == i,
                        out_spans == bspans.take(i as int),
                        spans_correspond(
                            new_tokens@.map_values(|t: ConnectionToken| t@),
                            map@,
                            out_spans,
                            format,
                            lts,
                            dty,
                        ),
                        nb == bcs.inner@.len(),
                        0 <= i <= nb,
                    decreases nb - i,
                {
                    proof {
                        assert(token_ok(bcs@[i as int], bmap@));
                        assert(bspans.take(i + 1) =~= bspans.take(i as int).push(
                            bspans[i as int],
                        ));
                    }
                    match &bcs.inner[i] {
                        ConnectionToken::Text(t) => {
                            let span = ConnectionToken::Text(t.clone());
                            proof {
                                lemma_tokens_wf_push(new_tokens@, span, map@);
                            }
                            let ghost tks0 = new_tokens@.map_values(|t2: ConnectionToken| t2@);
                            new_tokens.push(span);
                            proof {
                                out_spans = out_spans.push(bspans[i as int]);
                                let tks = new_tokens@.map_values(|t2: ConnectionToken| t2@);
                                assert(tks =~= tks0.push(span@));
                                assert(bcs@[i as int] == TokenV::Text(t@));
                                assert(bspans[i as int] == t@);
                                assert forall|j: int|
                                    0 <= j < tks.len() implies match #[trigger] tks[j] {
                                    TokenV::Text(tx) => out_spans[j] == tx,
                                    TokenV::Link { id, idx } => map@.dom().contains(id) && (
                                    idx as int) < map@[id].variants.len() && spec_parse_link(
                                        out_spans[j],
                                        format,
                                        lts,
                                        dty,
                                    ) == Some((id, map@[id].variants[idx as int])),
                                } by {
                                    if j < tks0.len() {
                                        assert(tks[j] == tks0[j]);
                                    }
                                }
                            }
                        },
                        ConnectionToken::Link { id, idx } => {
                            let conn = match bmap.get(id) {
                                Some(pc) => pc.variants[*idx].duplicate(),
                                None => Connection {
                                    ty: String::new(),
                                    title: String::new(),
                                },  // excluded by `tokens_wf`
                            };
                            proof {
                                assert(conn@ == bmap@[*id].variants[*idx as int]);
                            }
                            let ghost connv = conn@;
                            let ghost before = map@;
                            let new_idx: usize;
                            match map.remove(id) {
                                Some(mut pc) => {
                                    pc.variants.push(conn);
                                    new_idx = pc.variants.len() - 1;
                                    proof {
                                        assert(pc@.variants =~= before[*id].variants.push(
                                            connv,
                                        ));
                                    }
                                    map.insert(*id, pc);
                                },
                                None => {
                                    let mut variants: Vec<Connection> = Vec::new();
                                    variants.push(conn);
                                    let pc = ParallelConnections { valid: false, variants };
                                    proof {
                                        assert(pc@.variants.len() == 1);
                                    }
                                    map.insert(*id, pc);
                                    new_idx = 0;
                                },
                            }
                            let lt = ConnectionToken::Link { id: *id, idx: new_idx };
                            proof {
                                assert(map_extends(map@, before));
                                assert(map_extends_prefix(map@, before)) by {
                                    assert forall|q: u128|
                                        before.dom().contains(q) implies map@.dom().contains(q)
                                        && before[q].variants.len() <= (
                                    #[trigger] map@[q]).variants.len() && before[q].variants
                                        == map@[q].variants.take(
                                        before[q].variants.len() as int,
                                    ) by {
                                        assert(before[q].variants =~= map@[q].variants.take(
                                            before[q].variants.len() as int,
                                        ));
                                    }
                                }
                                lemma_prefix_trans(map@, before, tmap0);
                                lemma_tokens_wf_mono(title@, before, map@);
                                lemma_tokens_wf_mono(
                                    new_tokens@.map_values(|t: ConnectionToken| t@),
                                    before,
                                    map@,
                                );
                                lemma_spans_correspond_mono(
                                    new_tokens@.map_values(|t: ConnectionToken| t@),
                                    before,
                                    map@,
                                    out_spans,
                                    format,
                                    lts,
                                    dty,
                                );
                                assert(token_ok(lt@, map@));
                                lemma_tokens_wf_push(new_tokens@, lt, map@);
                            }
                            let ghost tks0 = new_tokens@.map_values(|t2: ConnectionToken| t2@);
                            new_tokens.push(lt);
                            proof {
                                out_spans = out_spans.push(bspans[i as int]);
                                let tks = new_tokens@.map_values(|t2: ConnectionToken| t2@);
                                assert(tks =~= tks0.push(lt@));
                                assert(bcs@[i as int] == (TokenV::Link {
                                    id: *id,
                                    idx: *idx,
                                }));
                                assert(spec_parse_link(bspans[i as int], format, lts, dty)
                                    == Some((*id, bmap@[*id].variants[*idx as int])));
                                assert(map@[*id].variants[new_idx as int] == connv);
                                assert forall|j: int|
                                    0 <= j < tks.len() implies match #[trigger] tks[j] {
                                    TokenV::Text(tx) => out_spans[j] == tx,
                                    TokenV::Link { id: id2, idx: idx2 } => map@.dom().contains(
                                        id2,
                                    ) && (idx2 as int) < map@[id2].variants.len()
                                        && spec_parse_link(out_spans[j], format, lts, dty)
                                        == Some((id2, map@[id2].variants[idx2 as int])),
                                } by {
                                    if j < tks0.len() {
                                        assert(tks[j] == tks0[j]);
                                    }
                                }
                            }
                        },
                    }
                    i = i + 1;
                }
                proof {
                    assert(out_spans =~= bspans);
                    body_spans = bspans;
                }
                Some(ConnectedString { inner: new_tokens })
            },
            None => None,
        };
        let r = SingleConnectedNode {
            title,
            body,
            connections: map,
            position,
            backlinks: KeySet::new(),
        };
        proof {
            lemma_spans_correspond_mono(r@.title, tmap0, r@.connections, tspans, format, lts, dty);
            assert(tokens_match_source(
                r@.title,
                r@.connections,
                tspans,
                title_str@,
                format,
                config.link_types@,
                config.default_link_type@,
            ));
            match body_str {
                Some(ref b) => {
                    assert(tokens_match_source(
                        r@.body.unwrap(),
                        r@.connections,
                        body_spans,
                        b@,
                        format,
                        config.link_types@,
                        config.default_link_type@,
                    ));
                },
                None => {},
            }
        }
        r
    }


    /// The targets this node connects to, with each connection's validity,
    /// in the map's insertion order.
    pub fn connections(&self) -> (r: Vec<(u128, bool)>)
        requires
            self.inv(),
        ensures
            r@.len() == self.connections.kseq().len(),
            forall|i: int|
                0 <= i < r@.len() ==> (#[trigger] r@[i]).0 == self.connections.kseq()[i]
                    && self@.connections.dom().contains(r@[i].0) && r@[i].1
                    == self@.connections[r@[i].0].valid,
            forall|id: u128| #[trigger]
                self@.connections.dom().contains(id) ==> exists|i: int|
                    0 <= i < r@.len() && (#[trigger] r@[i]).0 == id,
    {
        proof {
            self.connections.lemma_view_props();
        }
        let n = self.connections.num_entries();
        let mut r: Vec<(u128, bool)> = Vec::new();
        let mut i: usize = 0;
        while i < n
            invariant
                self.inv(),
                n == self.connections.kseq().len(),
                0 <= i <= n,
                r@.len() == i,
                forall|j: int|
                    0 <= j < i ==> (#[trigger] r@[j]).0 == self.connections.kseq()[j]
                        && self@.connections.dom().contains(r@[j].0) && r@[j].1
                        == self@.connections[r@[j].0].valid,
            decreases n - i,
        {
            let id = *self.connections.key_at(i);
            let pc = self.connections.val_at(i);
            r.push((id, pc.valid));
            i = i + 1;
        }
        proof {
            self.connections.lemma_view_props();
            assert forall|id: u128| #[trigger]
                self@.connections.dom().contains(id) implies exists|i: int|
                0 <= i < r@.len() && (#[trigger] r@[i]).0 == id by {
                assert(self.connections.kseq().contains(id));
                let j = choose|j: int|
                    0 <= j < self.connections.kseq().len() && self.connections.kseq()[j] == id;
                assert(r@[j].0 == id);
            }
        }
        r
    }

    /// The ids of the nodes which link to this one, in insertion order.
    pub fn backlinks(&self) -> (r: Vec<u128>)
        requires
            self.inv(),
        ensures
            r@.len() == self@.backlinks.len(),
            forall|i: int| 0 <= i < r@.len() ==> self@.backlinks.contains(#[trigger] r@[i]),
            forall|id: u128| #[trigger]
                self@.backlinks.contains(id) ==> exists|i: int|
                    0 <= i < r@.len() && r@[i] == id,
    {
        proof {
            self.backlinks.lemma_view_props();
            self.backlinks.lemma_card();
        }
        let n = self.backlinks.num_elems();
        let mut r: Vec<u128> = Vec::new();
        let mut i: usize = 0;
        while i < n
            invariant
                self.inv(),
                n == self.backlinks.eseq().len(),
                0 <= i <= n,
                r@.len() == i,
                forall|j: int| 0 <= j < i ==> r@[j] == self.backlinks.eseq()[j],
            decreases n - i,
        {
            r.push(*self.backlinks.elem_at(i));
            i = i + 1;
        }
        proof {
            self.backlinks.lemma_view_props();
            self.backlinks.lemma_card();
            assert forall|i: int|
                0 <= i < r@.len() implies self@.backlinks.contains(#[trigger] r@[i]) by {
                assert(self.backlinks.eseq().contains(self.backlinks.eseq()[i]));
            }
            assert forall|id: u128| #[trigger]
                self@.backlinks.contains(id) implies exists|i: int|
                0 <= i < r@.len() && r@[i] == id by {
                assert(self.backlinks.eseq().contains(id));
                let j = choose|j: int|
                    0 <= j < self.backlinks.eseq().len() && self.backlinks.eseq()[j] == id;
                assert(r@[j] == id);
            }
        }
        r
    }

    /// The raw map of connections in the title and body of this node.
    pub fn connections_map(&self) -> (r: &KeyMap<u128, ParallelConnections>)
        ensures
            r@ == self@.connections,
            *r == self.connections,
    {
        &self.connections
    }

    pub fn position(&self) -> (r: &Vec<usize>)
        ensures
            r@ == self@.position,
    {
        &self.position
    }

    /// The rendered title of this node.
    pub fn title(&self, format: Format) -> (r: String)
        requires
            self.inv(),
        ensures
            r@ == spec_render(self@.title, self@.connections, format),
    {
        self.title.to_string(&self.connections, format)
    }

    /// The rendered body of this node, if it has one.
    pub fn body(&self, format: Format) -> (r: Option<String>)
        requires
            self.inv(),
        ensures
            match r {
                Some(b) => self@.body is Some && b@ == spec_render(
                    self@.body.unwrap(),
                    self@.connections,
                    format,
                ),
                None => self@.body is None,
            },
    {
        match &self.body {
            Some(b) => Some(b.to_string(&self.connections, format)),
            None => None,
        }
    }

    /// Adds a backlink from the node with the given id.
    pub fn add_backlink(&mut self, from: u128)
        requires
            old(self).inv(),
        ensures
            final(self).inv(),
            final(self)@ == (SingleConnectedNodeV {
                backlinks: old(self)@.backlinks.insert(from),
                ..old(self)@
            }),
    {
        self.backlinks.insert(from);
    }

    /// Removes the backlink from the node with the given id, if present.
    pub fn remove_backlink(&mut self, from: &u128)
        requires
            old(self).inv(),
        ensures
            final(self).inv(),
            final(self)@ == (SingleConnectedNodeV {
                backlinks: old(self)@.backlinks.remove(*from),
                ..old(self)@
            }),
    {
        self.backlinks.remove(from);
    }

    /// Marks the connection to the given target invalid, if there is one.
    pub fn invalidate_connection(&mut self, to: u128)
        requires
            old(self).inv(),
        ensures
            final(self).inv(),
            final(self)@ == (SingleConnectedNodeV {
                connections: if old(self)@.connections.dom().contains(to) {
                    old(self)@.connections.insert(
                        to,
                        ParallelConnectionsV {
                            valid: false,
                            variants: old(self)@.connections[to].variants,
                        },
                    )
                } else {
                    old(self)@.connections
                },
                ..old(self)@
            }),
    {
        let ghost before = self.connections@;
        match self.connections.remove(&to) {
            Some(mut pc) => {
                pc.valid = false;
                self.connections.insert(to, pc);
                proof {
                    assert(self.connections@ =~= before.insert(
                        to,
                        ParallelConnectionsV { valid: false, variants: before[to].variants },
                    ));
                    assert(map_extends(self.connections@, before));
                    lemma_tokens_wf_mono(self.title@, before, self.connections@);
                    match self.body {
                        Some(ref b) => {
                            lemma_tokens_wf_mono(b@, before, self.connections@);
                        },
                        None => {},
                    }
                }
            },
            None => {
                proof {
                    assert(self.connections@ =~= before);
                }
            },
        }
    }

    /// Sets the validity flag of the connection to the given target, leaving
    /// titles and types alone; absent targets do nothing.
    pub fn set_connection_validity(&mut self, to: u128, valid: bool)
        requires
            old(self).inv(),
        ensures
            final(self).inv(),
            final(self)@ == (SingleConnectedNodeV {
                connections: if old(self)@.connections.dom().contains(to) {
                    old(self)@.connections.insert(
                        to,
                        (ParallelConnectionsV {
                            valid,
                            variants: old(self)@.connections[to].variants,
                        }),
                    )
                } else {
                    old(self)@.connections
                },
                ..old(self)@
            }),
    {
        let ghost before = self.connections@;
        match self.connections.remove(&to) {
            Some(mut pc) => {
                pc.valid = valid;
                self.connections.insert(to, pc);
                proof {
                    assert(self.connections@ =~= before.insert(
                        to,
                        (ParallelConnectionsV { valid, variants: before[to].variants }),
                    ));
                    assert(map_extends(self.connections@, before));
                    lemma_tokens_wf_mono(self.title@, before, self.connections@);
                    match self.body {
                        Some(ref b) => {
                            lemma_tokens_wf_mono(b@, before, self.connections@);
                        },
                        None => {},
                    }
                }
            },
            None => {
                proof {
                    assert(self.connections@ =~= before);
                }
            },
        }
    }

    /// Renders the connection to the given target valid and overwrites the
    /// title of every variant with the target's current title.
    pub fn validate_connection(&mut self, to: u128, to_title: &String)
        requires
            old(self).inv(),
        ensures
            final(self).inv(),
            final(self)@ == (SingleConnectedNodeV {
                connections: if old(self)@.connections.dom().contains(to) {
                    old(self)@.connections.insert(
                        to,
                        ParallelConnectionsV {
                            valid: true,
                            variants: Seq::new(
                                old(self)@.connections[to].variants.len(),
                                |i: int|
                                    ConnectionV {
                                        ty: old(self)@.connections[to].variants[i].ty,
                                        title: to_title@,
                                    },
                            ),
                        },
                    )
                } else {
                    old(self)@.connections
                },
                ..old(self)@
            }),
    {
        let ghost before = self.connections@;
        match self.connections.remove(&to) {
            Some(pc) => {
                let n = pc.variants.len();
                let mut variants: Vec<Connection> = Vec::new();
                let mut i: usize = 0;
                while i < n
                    invariant
                        n == pc.variants@.len(),
                        0 <= i <= n,
                        variants@.len() == i,
                        forall|j: int|
                            0 <= j < i ==> (#[trigger] variants@[j])@ == (ConnectionV {
                                ty: pc.variants@[j]@.ty,
                                title: to_title@,
                            }),
                    decreases n - i,
                {
                    variants.push(
                        Connection { ty: pc.variants[i].ty.clone(), title: to_title.clone() },
                    );
                    i = i + 1;
                }
                let npc = ParallelConnections { valid: true, variants };
                proof {
                    assert(npc@.variants =~= Seq::new(
                        before[to].variants.len(),
                        |i: int| ConnectionV { ty: before[to].variants[i].ty, title: to_title@ },
                    ));
                }
                self.connections.insert(to, npc);
                proof {
                    assert(self.connections@ =~= before.insert(to, npc@));
                    assert(map_extends(self.connections@, before));
                    lemma_tokens_wf_mono(self.title@, before, self.connections@);
                    match self.body {
                        Some(ref b) => {
                            lemma_tokens_wf_mono(b@, before, self.connections@);
                        },
                        None => {},
                    }
                }
            },
            None => {
                proof {
                    assert(self.connections@ =~= before);
                }
            },
        }
    }
}


/// A document tree which contains parsed connections in every node's title
/// and body. The tree itself is kept scrubbed: title and body strings live
/// only in tokenised form in the map.
pub struct ConnectedNode {
    /// The scrubbed tree: titles empty, bodies absent.
    pub node: crate::document::StarlingNode,
    /// The connected properties of every node in the tree, by id.
    pub map: KeyMap<u128, SingleConnectedNode>,
}

#[verifier::ext_equal]
pub struct ConnectedNodeV {
    pub node: crate::document::StarlingNodeV,
    pub map: Map<u128, SingleConnectedNodeV>,
}

impl View for ConnectedNode {
    type V = ConnectedNodeV;

    open spec fn view(&self) -> ConnectedNodeV {
        ConnectedNodeV { node: self.node@, map: self.map@ }
    }
}

/// The tree with every node's title and body re-rendered from the map.
pub open spec fn spec_detokenise(
    nv: crate::document::StarlingNodeV,
    m: Map<u128, SingleConnectedNodeV>,
    format: Format,
) -> crate::document::StarlingNodeV
    decreases nv,
{
    crate::document::StarlingNodeV {
        title: if m.dom().contains(nv.id) {
            spec_render(m[nv.id].title, m[nv.id].connections, format)
        } else {
            nv.title
        },
        body: if m.dom().contains(nv.id) {
            match m[nv.id].body {
                Some(b) => Some(spec_render(b, m[nv.id].connections, format)),
                None => None,
            }
        } else {
            nv.body
        },
        children: spec_detokenise_forest(nv.children, m, format),
        ..nv
    }
}

pub open spec fn spec_detokenise_forest(
    s: Seq<crate::document::StarlingNodeV>,
    m: Map<u128, SingleConnectedNodeV>,
    format: Format,
) -> Seq<crate::document::StarlingNodeV>
    decreases s,
{
    if s.len() == 0 {
        Seq::empty()
    } else {
        seq![spec_detokenise(s[0], m, format)] + spec_detokenise_forest(s.drop_first(), m, format)
    }
}

pub proof fn lemma_detokenise_forest(
    s: Seq<crate::document::StarlingNodeV>,
    m: Map<u128, SingleConnectedNodeV>,
    format: Format,
)
    ensures
        spec_detokenise_forest(s, m, format).len() == s.len(),
        forall|i: int|
            0 <= i < s.len() ==> spec_detokenise_forest(s, m, format)[i] == spec_detokenise(
                #[trigger] s[i],
                m,
                format,
            ),
    decreases s,
{
    if s.len() > 0 {
        lemma_detokenise_forest(s.drop_first(), m, format);
        assert forall|i: int|
            0 <= i < s.len() implies spec_detokenise_forest(s, m, format)[i] == spec_detokenise(
            #[trigger] s[i],
            m,
            format,
        ) by {
            if i > 0 {
                assert(spec_detokenise_forest(s, m, format)[i] == spec_detokenise_forest(
                    s.drop_first(),
                    m,
                    format,
                )[i - 1]);
                assert(s.drop_first()[i - 1] == s[i]);
            }
        }
    }
}

/// Tokenises one subtree: enters an initial [`SingleConnectedNode`] for
/// every node into the map and returns the scrubbed subtree.
fn tokenise_tree(
    node: &crate::document::StarlingNode,
    format: Format,
    config: &Config,
    map: &mut KeyMap<u128, SingleConnectedNode>,
    position: &Vec<usize>,
) -> (r: crate::document::StarlingNode)
    requires
        old(map).wf(),
        config.valid(),
    ensures
        final(map).wf(),
        final(map)@.dom() =~= old(map)@.dom().union(node@.ids()),
        forall|id: u128|
            node@.ids().contains(id) ==> scn_initial(#[trigger] final(map)@[id]),
        forall|id: u128|
            !node@.ids().contains(id) && old(map)@.dom().contains(id)
                ==> (#[trigger] final(map)@[id]) == old(map)@[id],
        r@ == node@.scrub(),
    decreases *node,
{
    let title = node.title.clone();
    let body = match &node.body {
        Some(b) => Some(b.clone()),
        None => None,
    };
    let scn = SingleConnectedNode::new(title, body, dup_positions(position), format, config);
    map.insert(node.id, scn);
    let ghost after_self = map@;
    let n_kids = node.children.len();
    let mut new_children: Vec<crate::document::StarlingNode> = Vec::new();
    let mut k: usize = 0;
    proof {
        crate::document::lemma_forest_view(node.children@);
    }
    while k < n_kids
        invariant
            map.wf(),
            config.valid(),
            n_kids == node.children@.len(),
            node@.children.len() == n_kids,
            forall|j: int|
                0 <= j < n_kids ==> node@.children[j] == crate::document::node_view_of(
                    #[trigger] node.children@[j],
                ),
            0 <= k <= n_kids,
            new_children@.len() == k,
            forall|j: int|
                0 <= j < k ==> (#[trigger] new_children@[j])@ == node@.children[j].scrub(),
            after_self == old(map)@.insert(node.id, old(map)@[node.id]) || true,
            map@.dom() =~= after_self.dom().union(
                crate::document::StarlingNodeV::forest_ids(node@.children.take(k as int)),
            ),
            forall|id: u128|
                crate::document::StarlingNodeV::forest_ids(
                    node@.children.take(k as int),
                ).contains(id) ==> scn_initial(#[trigger] map@[id]),
            forall|id: u128|
                !crate::document::StarlingNodeV::forest_ids(
                    node@.children.take(k as int),
                ).contains(id) && after_self.dom().contains(id) ==> #[trigger] map@[id]
                    == after_self[id],
        decreases n_kids - k,
    {
        let ghost prev_dom = map@.dom();
        let ghost prev_map = map@;
        let mut child_pos = dup_positions(position);
        child_pos.push(k);
        let child_scrubbed = tokenise_tree(&node.children[k], format, config, map, &child_pos);
        new_children.push(child_scrubbed);
        proof {
            assert(node@.children.take(k + 1) =~= node@.children.take(k as int).push(
                node@.children[k as int],
            ));
            crate::document::StarlingNodeV::lemma_forest_ids_snoc(
                node@.children.take(k as int),
                node@.children[k as int],
            );
            assert(node.children@[k as int]@ == node@.children[k as int]);
            assert(map@.dom() =~= after_self.dom().union(
                crate::document::StarlingNodeV::forest_ids(node@.children.take(k + 1)),
            ));
            assert forall|id: u128|
                crate::document::StarlingNodeV::forest_ids(
                    node@.children.take(k + 1),
                ).contains(id) implies scn_initial(#[trigger] map@[id]) by {
                if node@.children[k as int].ids().contains(id) {
                } else {
                    assert(map@[id] == prev_map[id]);
                }
            }
        }
        k = k + 1;
    }
    let mut r = node.duplicate();
    r.title = String::new();
    r.body = None;
    r.children = new_children;
    proof {
        assert(node@.children.take(n_kids as int) =~= node@.children);
        crate::document::lemma_forest_view(r.children@);
        crate::document::StarlingNodeV::lemma_scrub_forest(node@.children);
        assert forall|j: int|
            0 <= j < n_kids implies r@.children[j] == node@.scrub().children[j] by {
            assert(r@.children[j] == crate::document::node_view_of(r.children@[j]));
        }
        assert(r@.children =~= node@.scrub().children);
        assert(r@ =~= node@.scrub());
        // The node's own entry either survived untouched or was overwritten
        // by a descendant with the same id; either way it is initial.
        assert(node@.ids() == Set::empty().insert(node.id).union(
            crate::document::StarlingNodeV::forest_ids(node@.children),
        ));
        assert forall|id: u128|
            node@.ids().contains(id) implies scn_initial(#[trigger] map@[id]) by {
            if crate::document::StarlingNodeV::forest_ids(node@.children).contains(id) {
            } else {
                assert(id == node.id);
                assert(map@[id] == after_self[id]);
            }
        }
        assert(map@.dom() =~= old(map)@.dom().union(node@.ids()));
    }
    r
}

impl ConnectedNode {
    pub open spec fn inv(&self) -> bool {
        self.map.wf()
    }

    /// Parses the provided node tree into a connected node by tokenising
    /// every title and body.
    pub fn from_node(node: &crate::document::StarlingNode, format: Format, config: &Config) -> (r:
        Self)
        requires
            config.valid(),
        ensures
            r.inv(),
            r@.node == node@.scrub(),
            r@.map.dom() =~= node@.ids(),
            forall|id: u128| r@.map.dom().contains(id) ==> scn_initial(#[trigger] r@.map[id]),
    {
        let mut map: KeyMap<u128, SingleConnectedNode> = KeyMap::new();
        let root_pos: Vec<usize> = Vec::new();
        let scrubbed = tokenise_tree(node, format, config, &mut map, &root_pos);
        let r = ConnectedNode { node: scrubbed, map };
        proof {
            assert(r@.map.dom() =~= node@.ids());
        }
        r
    }

    /// Rebuilds the plain tree, re-rendering every title and body.
    pub fn to_node(&self, format: Format) -> (r: crate::document::StarlingNode)
        requires
            self.inv(),
        ensures
            r@ == spec_detokenise(self@.node, self@.map, format),
    {
        detokenise_tree(&self.node, &self.map, format)
    }

    /// The node at the root of this tree; its titles and bodies are blank.
    pub fn scrubbed_node(&self) -> (r: &crate::document::StarlingNode)
        ensures
            r@ == self@.node,
    {
        &self.node
    }

    /// The details of the node with the given id, if it is in this tree.
    pub fn node(&self, id: &u128) -> (r: Option<&SingleConnectedNode>)
        requires
            self.inv(),
        ensures
            match r {
                Some(scn) => self@.map.dom().contains(*id) && scn@ == self@.map[*id]
                    && scn.inv(),
                None => !self@.map.dom().contains(*id),
            },
    {
        self.map.get(id)
    }

    /// The ids of all nodes in this tree, in map insertion order.
    pub fn ids(&self) -> (r: Vec<u128>)
        requires
            self.inv(),
        ensures
            forall|i: int| 0 <= i < r@.len() ==> self@.map.dom().contains(#[trigger] r@[i]),
            forall|id: u128| #[trigger]
                self@.map.dom().contains(id) ==> exists|i: int| 0 <= i < r@.len() && r@[i] == id,
            forall|i: int, j: int| 0 <= i < j < r@.len() ==> r@[i] != r@[j],
    {
        proof {
            self.map.lemma_view_props();
        }
        let n = self.map.num_entries();
        let mut r: Vec<u128> = Vec::new();
        let mut i: usize = 0;
        while i < n
            invariant
                self.inv(),
                n == self.map.kseq().len(),
                0 <= i <= n,
                r@.len() == i,
                forall|j: int| 0 <= j < i ==> r@[j] == self.map.kseq()[j],
            decreases n - i,
        {
            r.push(*self.map.key_at(i));
            i = i + 1;
        }
        proof {
            self.map.lemma_view_props();
            assert forall|i2: int|
                0 <= i2 < r@.len() implies self@.map.dom().contains(#[trigger] r@[i2]) by {
                assert(self.map.kseq().contains(self.map.kseq()[i2]));
            }
            assert forall|id: u128| #[trigger]
                self@.map.dom().contains(id) implies exists|i2: int|
                0 <= i2 < r@.len() && r@[i2] == id by {
                assert(self.map.kseq().contains(id));
                let j = choose|j: int|
                    0 <= j < self.map.kseq().len() && self.map.kseq()[j] == id;
                assert(r@[j] == id);
            }
        }
        r
    }

    /// Adds a backlink on the node with the given id; absent ids do nothing.
    pub fn add_backlink(&mut self, on: u128, from: u128)
        requires
            old(self).inv(),
        ensures
            final(self).inv(),
            final(self)@.node == old(self)@.node,
            final(self)@.map == (if old(self)@.map.dom().contains(on) {
                old(self)@.map.insert(
                    on,
                    (SingleConnectedNodeV {
                        backlinks: old(self)@.map[on].backlinks.insert(from),
                        ..old(self)@.map[on]
                    }),
                )
            } else {
                old(self)@.map
            }),
    {
        let ghost before = self.map@;
        match self.map.remove(&on) {
            Some(mut scn) => {
                scn.add_backlink(from);
                self.map.insert(on, scn);
                proof {
                    assert(self.map@ =~= before.insert(
                        on,
                        (SingleConnectedNodeV {
                            backlinks: before[on].backlinks.insert(from),
                            ..before[on]
                        }),
                    ));
                }
            },
            None => {
                proof {
                    assert(self.map@ =~= before);
                }
            },
        }
    }

    /// Removes a backlink on the node with the given id; absent ids or
    /// absent backlinks do nothing.
    pub fn remove_backlink(&mut self, on: u128, from: u128)
        requires
            old(self).inv(),
        ensures
            final(self).inv(),
            final(self)@.node == old(self)@.node,
            final(self)@.map == (if old(self)@.map.dom().contains(on) {
                old(self)@.map.insert(
                    on,
                    (SingleConnectedNodeV {
                        backlinks: old(self)@.map[on].backlinks.remove(from),
                        ..old(self)@.map[on]
                    }),
                )
            } else {
                old(self)@.map
            }),
    {
        let ghost before = self.map@;
        match self.map.remove(&on) {
            Some(mut scn) => {
                scn.remove_backlink(&from);
                self.map.insert(on, scn);
                proof {
                    assert(self.map@ =~= before.insert(
                        on,
                        (SingleConnectedNodeV {
                            backlinks: before[on].backlinks.remove(from),
                            ..before[on]
                        }),
                    ));
                }
            },
            None => {
                proof {
                    assert(self.map@ =~= before);
                }
            },
        }
    }

    /// Marks the connection from `on` to `to` invalid, if both exist.
    pub fn invalidate_connection(&mut self, on: u128, to: u128)
        requires
            old(self).inv(),
        ensures
            final(self).inv(),
            final(self)@.node == old(self)@.node,
            final(self)@.map == (if old(self)@.map.dom().contains(on) {
                old(self)@.map.insert(
                    on,
                    (SingleConnectedNodeV {
                        connections: if old(self)@.map[on].connections.dom().contains(to) {
                            old(self)@.map[on].connections.insert(
                                to,
                                (ParallelConnectionsV {
                                    valid: false,
                                    variants: old(self)@.map[on].connections[to].variants,
                                }),
                            )
                        } else {
                            old(self)@.map[on].connections
                        },
                        ..old(self)@.map[on]
                    }),
                )
            } else {
                old(self)@.map
            }),
    {
        let ghost before = self.map@;
        match self.map.remove(&on) {
            Some(mut scn) => {
                let ghost scn_before = scn@;
                scn.invalidate_connection(to);
                self.map.insert(on, scn);
                proof {
                    assert(scn_before == before[on]);
                    assert(self.map@ =~= before.insert(on, scn@));
                }
            },
            None => {
                proof {
                    assert(self.map@ =~= before);
                }
            },
        }
    }

    /// Sets the validity of the connection from `on` to `to`, leaving titles
    /// alone; absent nodes or targets do nothing.
    pub fn set_connection_validity(&mut self, on: u128, to: u128, valid: bool)
        requires
            old(self).inv(),
        ensures
            final(self).inv(),
            final(self)@.node == old(self)@.node,
            final(self)@.map == (if old(self)@.map.dom().contains(on) {
                old(self)@.map.insert(
                    on,
                    (SingleConnectedNodeV {
                        connections: if old(self)@.map[on].connections.dom().contains(to) {
                            old(self)@.map[on].connections.insert(
                                to,
                                (ParallelConnectionsV {
                                    valid,
                                    variants: old(self)@.map[on].connections[to].variants,
                                }),
                            )
                        } else {
                            old(self)@.map[on].connections
                        },
                        ..old(self)@.map[on]
                    }),
                )
            } else {
                old(self)@.map
            }),
    {
        let ghost before = self.map@;
        match self.map.remove(&on) {
            Some(mut scn) => {
                let ghost scn_before = scn@;
                scn.set_connection_validity(to, valid);
                self.map.insert(on, scn);
                proof {
                    assert(scn_before == before[on]);
                    assert(self.map@ =~= before.insert(on, scn@));
                }
            },
            None => {
                proof {
                    assert(self.map@ =~= before);
                }
            },
        }
    }

    /// Renders the connection from `from` to `to` valid with the given
    /// title, if both exist.
    pub fn validate_connection(&mut self, from: u128, to: u128, to_title: &String)
        requires
            old(self).inv(),
        ensures
            final(self).inv(),
            final(self)@.node == old(self)@.node,
            final(self)@.map == (if old(self)@.map.dom().contains(from) {
                old(self)@.map.insert(
                    from,
                    (SingleConnectedNodeV {
                        connections: if old(self)@.map[from].connections.dom().contains(to) {
                            old(self)@.map[from].connections.insert(
                                to,
                                (ParallelConnectionsV {
                                    valid: true,
                                    variants: Seq::new(
                                        old(self)@.map[from].connections[to].variants.len(),
                                        |i: int|
                                            ConnectionV {
                                                ty: old(
                                                    self,
                                                )@.map[from].connections[to].variants[i].ty,
                                                title: to_title@,
                                            },
                                    ),
                                }),
                            )
                        } else {
                            old(self)@.map[from].connections
                        },
                        ..old(self)@.map[from]
                    }),
                )
            } else {
                old(self)@.map
            }),
    {
        let ghost before = self.map@;
        match self.map.remove(&from) {
            Some(mut scn) => {
                let ghost scn_before = scn@;
                scn.validate_connection(to, to_title);
                self.map.insert(from, scn);
                proof {
                    assert(scn_before == before[from]);
                    assert(self.map@ =~= before.insert(from, scn@));
                }
            },
            None => {
                proof {
                    assert(self.map@ =~= before);
                }
            },
        }
    }

    pub fn duplicate(&self) -> (r: Self)
        requires
            self.inv(),
        ensures
            r.inv(),
            r@ == self@,
    {
        ConnectedNode { node: self.node.duplicate(), map: self.map.duplicate() }
    }
}

/// Rebuilds one subtree with every title and body re-rendered.
fn detokenise_tree(
    node: &crate::document::StarlingNode,
    map: &KeyMap<u128, SingleConnectedNode>,
    format: Format,
) -> (r: crate::document::StarlingNode)
    requires
        map.wf(),
    ensures
        r@ == spec_detokenise(node@, map@, format),
    decreases *node,
{
    let mut r = node.duplicate();
    match map.get(&node.id) {
        Some(scn) => {
            r.title = scn.title.to_string(&scn.connections, format);
            r.body = match &scn.body {
                Some(b) => Some(b.to_string(&scn.connections, format)),
                None => None,
            };
        },
        None => {},
    }
    let n_kids = node.children.len();
    let mut new_children: Vec<crate::document::StarlingNode> = Vec::new();
    let mut k: usize = 0;
    proof {
        crate::document::lemma_forest_view(node.children@);
    }
    while k < n_kids
        invariant
            map.wf(),
            n_kids == node.children@.len(),
            node@.children.len() == n_kids,
            forall|j: int|
                0 <= j < n_kids ==> node@.children[j] == crate::document::node_view_of(
                    #[trigger] node.children@[j],
                ),
            0 <= k <= n_kids,
            new_children@.len() == k,
            forall|j: int|
                0 <= j < k ==> (#[trigger] new_children@[j])@ == spec_detokenise(
                    node@.children[j],
                    map@,
                    format,
                ),
        decreases n_kids - k,
    {
        new_children.push(detokenise_tree(&node.children[k], map, format));
        proof {
            assert(node.children@[k as int]@ == node@.children[k as int]);
        }
        k = k + 1;
    }
    r.children = new_children;
    proof {
        crate::document::lemma_forest_view(r.children@);
        lemma_detokenise_forest(node@.children, map@, format);
        assert forall|j: int|
            0 <= j < n_kids implies r@.children[j] == spec_detokenise(
            node@,
            map@,
            format,
        ).children[j] by {
            assert(r@.children[j] == crate::document::node_view_of(r.children@[j]));
        }
        assert(r@.children =~= spec_detokenise(node@, map@, format).children);
        assert(r@ =~= spec_detokenise(node@, map@, format));
    }
    r
}

/// A document parsed for connections from the root down. The attributes are
/// kept verbatim and are not parsed for connections.
pub struct ConnectedDocument {
    /// The root of the connected tree.
    pub root: ConnectedNode,
    /// The raw attributes from the original document.
    pub attributes: String,
}

#[verifier::ext_equal]
pub struct ConnectedDocumentV {
    pub root: ConnectedNodeV,
    pub attributes: Seq<char>,
}

impl View for ConnectedDocument {
    type V = ConnectedDocumentV;

    open spec fn view(&self) -> ConnectedDocumentV {
        ConnectedDocumentV { root: self.root@, attributes: self.attributes@ }
    }
}

impl ConnectedDocument {
    pub open spec fn inv(&self) -> bool {
        self.root.inv()
    }

    /// Parses the provided document into a connected document by tokenising
    /// every title and body.
    pub fn from_document(document: &crate::document::StarlingDocument, format: Format, config:
        &Config) -> (r: Self)
        requires
            config.valid(),
        ensures
            r.inv(),
            r@.root.node == document@.root.scrub(),
            r@.root.map.dom() =~= document@.root.ids(),
            forall|id: u128|
                r@.root.map.dom().contains(id) ==> scn_initial(#[trigger] r@.root.map[id]),
            r@.attributes == document@.attributes,
    {
        ConnectedDocument {
            root: ConnectedNode::from_node(&document.root, format, config),
            attributes: document.attributes.clone(),
        }
    }

    /// Converts back into a plain document, re-rendering every string. The
    /// attributes are cloned verbatim.
    pub fn to_document(&self, format: Format) -> (r: crate::document::StarlingDocument)
        requires
            self.inv(),
        ensures
            r@.root == spec_detokenise(self@.root.node, self@.root.map, format),
            r@.attributes == self@.attributes,
    {
        crate::document::StarlingDocument {
            root: self.root.to_node(format),
            attributes: self.attributes.clone(),
        }
    }

    pub fn duplicate(&self) -> (r: Self)
        requires
            self.inv(),
        ensures
            r.inv(),
            r@ == self@,
    {
        ConnectedDocument { root: self.root.duplicate(), attributes: self.attributes.clone() }
    }
}


} // verus!
