//! A directed graph with annotated nodes and edges, and its description in
//! the DOT language.

use crate::text::joined;
use vstd::prelude::*;

verus! {

///////////
// ORDER //
///////////
/// Whether text `a` comes before text `b` from position `i` on, both being the
/// same up to there: at the first position where they differ `a` has the
/// lower character, or `a` ends there and `b` goes on.
pub open spec fn before_from(a: Seq<char>, b: Seq<char>, i: int) -> bool
    decreases a.len() - i,
{
    if i < 0 || i >= b.len() {
        false
    } else if i >= a.len() {
        true
    } else if a[i] != b[i] {
        (a[i] as int) < (b[i] as int)
    } else {
        before_from(a, b, i + 1)
    }
}

/// Text `a` comes before text `b`, character by character.
pub open spec fn text_before(a: Seq<char>, b: Seq<char>) -> bool {
    before_from(a, b, 0)
}

/// Of two texts that are the same up to `i`, one comes before the other or
/// they are the same.
pub proof fn lemma_one_before_from(a: Seq<char>, b: Seq<char>, i: int)
    requires
        0 <= i <= a.len(),
        i <= b.len(),
        a.take(i) == b.take(i),
        !before_from(a, b, i),
        !before_from(b, a, i),
    ensures
        a == b,
    decreases a.len() - i,
{
    if i >= b.len() || i >= a.len() {
        assert(a.take(i) =~= a);
        assert(b.take(i) =~= b);
    } else {
        assert(a[i] == b[i]);
        assert(a.take(i + 1) =~= a.take(i).push(a[i]));
        assert(b.take(i + 1) =~= b.take(i).push(b[i]));
        lemma_one_before_from(a, b, i + 1);
    }
}

/// No text comes before itself.
pub proof fn lemma_not_before_itself(a: Seq<char>, i: int)
    requires
        0 <= i,
    ensures
        !before_from(a, a, i),
    decreases a.len() - i,
{
    if i < a.len() {
        lemma_not_before_itself(a, i + 1);
    }
}

/// Before is transitive.
pub proof fn lemma_before_from_chain(a: Seq<char>, b: Seq<char>, c: Seq<char>, i: int)
    requires
        0 <= i,
        before_from(a, b, i),
        before_from(b, c, i),
        forall|k: int| 0 <= k < i && k < a.len() && k < b.len() ==> a[k] == b[k],
    ensures
        before_from(a, c, i),
    decreases a.len() - i,
{
    if i < a.len() && i < b.len() && i < c.len() && a[i] == b[i] && b[i] == c[i] {
        lemma_before_from_chain(a, b, c, i + 1);
    }
}

/// The order of texts is a strict total order.
pub proof fn lemma_text_order(a: Seq<char>, b: Seq<char>, c: Seq<char>)
    ensures
        !text_before(a, a),
        !text_before(a, b) && !text_before(b, a) ==> a == b,
        text_before(a, b) && text_before(b, c) ==> text_before(a, c),
        text_before(a, b) ==> !text_before(b, a),
{
    lemma_not_before_itself(a, 0);
    if !text_before(a, b) && !text_before(b, a) {
        assert(a.take(0) =~= b.take(0));
        lemma_one_before_from(a, b, 0);
    }
    if text_before(a, b) && text_before(b, c) {
        lemma_before_from_chain(a, b, c, 0);
    }
    if text_before(a, b) && text_before(b, a) {
        lemma_before_from_chain(a, b, a, 0);
    }
}

/// Whether `a` comes before `b`.
pub fn comes_before(a: &str, b: &str) -> (before: bool)
    ensures
        before == text_before(a@, b@),
{
    let a_len = a.unicode_len();
    let b_len = b.unicode_len();
    let mut i: usize = 0;
    loop
        invariant
            a_len == a@.len(),
            b_len == b@.len(),
            i <= a_len,
            i <= b_len,
            text_before(a@, b@) == before_from(a@, b@, i as int),
        decreases a_len - i,
    {
        if i >= b_len {
            return false;
        }
        if i >= a_len {
            return true;
        }
        let x = a.get_char(i);
        let y = b.get_char(i);
        if x != y {
            return (x as u32) < (y as u32);
        }
        i += 1;
    }
}

//////////
// KEYS //
//////////
/// What names a node of a graph.
///
/// A key has a text. Keys with the same text name the same node, and nodes
/// are ordered by the texts of their keys.
pub trait GVNodeKey: Sized {
    /// The text of the key.
    spec fn spec_text(&self) -> Seq<char>;

    /// The text of the key.
    fn to_text(&self) -> (text: String)
        ensures
            text@ == self.spec_text(),
    ;

    /// A key with the same text.
    fn duplicate(&self) -> (copy: Self)
        ensures
            copy.spec_text() == self.spec_text(),
    ;
}

impl GVNodeKey for String {
    open spec fn spec_text(&self) -> Seq<char> {
        self@
    }

    fn to_text(&self) -> (text: String) {
        self.clone()
    }

    fn duplicate(&self) -> (copy: Self) {
        self.clone()
    }
}

/// A node, by its key.
#[derive(Clone, PartialEq, Eq, Hash, Ord, PartialOrd)]
pub struct GVNode<T: GVNodeKey>(pub T);

/// An edge, by the keys of the node it leaves and the node it reaches.
#[derive(Clone, PartialEq, Eq, Hash, Ord, PartialOrd)]
pub struct GVEdge<T: GVNodeKey>(pub T, pub T);

impl<T: GVNodeKey> GVNode<T> {
    /// The text by which the node is known.
    pub open spec fn spec_key(self) -> Seq<char> {
        self.0.spec_text()
    }
}

impl<T: GVNodeKey> GVEdge<T> {
    /// The texts by which the two ends of the edge are known.
    pub open spec fn spec_key(self) -> (Seq<char>, Seq<char>) {
        (self.0.spec_text(), self.1.spec_text())
    }
}

/// Edge `a` comes before edge `b`: by the node that they leave, then by the
/// node that they reach.
pub open spec fn edge_before(a: (Seq<char>, Seq<char>), b: (Seq<char>, Seq<char>)) -> bool {
    text_before(a.0, b.0) || (a.0 == b.0 && text_before(a.1, b.1))
}

/// The order of edges is a strict total order.
pub proof fn lemma_edge_order(
    a: (Seq<char>, Seq<char>),
    b: (Seq<char>, Seq<char>),
    c: (Seq<char>, Seq<char>),
)
    ensures
        !edge_before(a, a),
        !edge_before(a, b) && !edge_before(b, a) ==> a == b,
        edge_before(a, b) && edge_before(b, c) ==> edge_before(a, c),
        edge_before(a, b) ==> !edge_before(b, a),
{
    lemma_text_order(a.0, b.0, c.0);
    lemma_text_order(a.1, b.1, c.1);
    lemma_text_order(b.0, a.0, c.0);
    lemma_text_order(b.0, c.0, a.0);
    lemma_text_order(a.0, c.0, b.0);
}

////////////////
// SORTED RUNS //
////////////////
/// `lt` is a strict total order.
pub open spec fn is_order<K>(lt: spec_fn(K, K) -> bool) -> bool {
    &&& forall|a: K| !#[trigger] lt(a, a)
    &&& forall|a: K, b: K| !#[trigger] lt(a, b) && !lt(b, a) ==> a == b
    &&& forall|a: K, b: K, c: K| #[trigger] lt(a, b) && #[trigger] lt(b, c) ==> lt(a, c)
}

/// The keys rise strictly.
pub open spec fn rises<K>(keys: Seq<K>, lt: spec_fn(K, K) -> bool) -> bool {
    forall|i: int, j: int| 0 <= i < j < keys.len() ==> lt(#[trigger] keys[i], #[trigger] keys[j])
}

/// How many of the keys come before `key`: in a rising run, the position at
/// which `key` stands or would stand.
pub open spec fn slot<K>(keys: Seq<K>, key: K, lt: spec_fn(K, K) -> bool) -> int
    decreases keys.len(),
{
    if keys.len() == 0 {
        0
    } else {
        slot(keys.drop_last(), key, lt) + if lt(keys.last(), key) {
            1int
        } else {
            0int
        }
    }
}

/// In a rising run, the slot of a key is the position before which all keys
/// come before it and at which the key does not.
pub proof fn lemma_slot<K>(keys: Seq<K>, key: K, lt: spec_fn(K, K) -> bool, p: int)
    requires
        is_order(lt),
        rises(keys, lt),
        0 <= p <= keys.len(),
        forall|i: int| 0 <= i < p ==> lt(#[trigger] keys[i], key),
        p < keys.len() ==> !lt(keys[p], key),
    ensures
        slot(keys, key, lt) == p,
        keys.contains(key) <==> (p < keys.len() && keys[p] == key),
        forall|j: int| p <= j < keys.len() ==> !lt(#[trigger] keys[j], key),
    decreases keys.len(),
{
    assert forall|j: int| p <= j < keys.len() implies !lt(#[trigger] keys[j], key) by {
        if j > p && lt(keys[j], key) {
            assert(lt(keys[p], keys[j]));
        }
    }
    if keys.len() > 0 {
        let init = keys.drop_last();
        assert forall|i: int, j: int| 0 <= i < j < init.len() implies lt(
            #[trigger] init[i],
            #[trigger] init[j],
        ) by {
            assert(init[i] == keys[i]);
            assert(init[j] == keys[j]);
        }
        if p < keys.len() {
            assert forall|i: int| 0 <= i < p implies lt(#[trigger] init[i], key) by {
                assert(init[i] == keys[i]);
            }
            if p < init.len() {
                assert(init[p] == keys[p]);
            }
            lemma_slot(init, key, lt, p);
            assert(!lt(keys[keys.len() - 1], key));
        } else {
            assert forall|i: int| 0 <= i < p - 1 implies lt(#[trigger] init[i], key) by {
                assert(init[i] == keys[i]);
            }
            lemma_slot(init, key, lt, p - 1);
            assert(lt(keys[keys.len() - 1], key));
        }
    }
    if keys.contains(key) {
        let k = choose|k: int| 0 <= k < keys.len() && keys[k] == key;
        if k < p {
            assert(lt(keys[k], key));
        } else if k > p {
            assert(lt(keys[p], keys[k]));
            assert(!lt(keys[p], key));
        }
    }
}

/// A key put into its slot leaves a rising run rising.
pub proof fn lemma_slot_keeps_rising<K>(keys: Seq<K>, key: K, lt: spec_fn(K, K) -> bool)
    requires
        is_order(lt),
        rises(keys, lt),
        !keys.contains(key),
    ensures
        rises(keys.insert(slot(keys, key, lt), key), lt),
        0 <= slot(keys, key, lt) <= keys.len(),
{
    let p = first_not_before(keys, key, lt, 0);
    lemma_first_not_before(keys, key, lt, 0);
    lemma_slot(keys, key, lt, p);
    let more = keys.insert(p, key);
    assert forall|i: int, j: int| 0 <= i < j < more.len() implies lt(
        #[trigger] more[i],
        #[trigger] more[j],
    ) by {
        if j < p {
            assert(more[i] == keys[i] && more[j] == keys[j]);
        } else if j == p {
            assert(more[i] == keys[i]);
        } else if i < p {
            assert(more[i] == keys[i] && more[j] == keys[j - 1]);
        } else if i == p {
            assert(more[j] == keys[j - 1]);
            assert(!lt(keys[j - 1], key));
            assert(keys.contains(keys[j - 1]));
        } else {
            assert(more[i] == keys[i - 1] && more[j] == keys[j - 1]);
        }
    }
}

/// The first position from `from` on at which the key does not come before
/// `key`.
pub open spec fn first_not_before<K>(keys: Seq<K>, key: K, lt: spec_fn(K, K) -> bool, from: int)
    -> int
    decreases keys.len() - from,
{
    if from < 0 || from >= keys.len() {
        keys.len() as int
    } else if !lt(keys[from], key) {
        from
    } else {
        first_not_before(keys, key, lt, from + 1)
    }
}

/// What the first position not before a key is.
pub proof fn lemma_first_not_before<K>(keys: Seq<K>, key: K, lt: spec_fn(K, K) -> bool, from: int)
    requires
        0 <= from <= keys.len(),
    ensures
        from <= first_not_before(keys, key, lt, from) <= keys.len(),
        forall|i: int|
            from <= i < first_not_before(keys, key, lt, from) ==> lt(#[trigger] keys[i], key),
        first_not_before(keys, key, lt, from) < keys.len() ==> !lt(
            keys[first_not_before(keys, key, lt, from)],
            key,
        ),
    decreases keys.len() - from,
{
    if from < keys.len() && lt(keys[from], key) {
        lemma_first_not_before(keys, key, lt, from + 1);
    }
}

/// The order of texts, as a value.
pub open spec fn text_order() -> spec_fn(Seq<char>, Seq<char>) -> bool {
    |a: Seq<char>, b: Seq<char>| text_before(a, b)
}

/// The order of edges, as a value.
pub open spec fn edge_order() -> spec_fn((Seq<char>, Seq<char>), (Seq<char>, Seq<char>)) -> bool {
    |a: (Seq<char>, Seq<char>), b: (Seq<char>, Seq<char>)| edge_before(a, b)
}

/// Both orders are strict total orders.
pub proof fn lemma_orders()
    ensures
        is_order(text_order()),
        is_order(edge_order()),
{
    let lt = text_order();
    assert forall|a: Seq<char>| !#[trigger] lt(a, a) by {
        lemma_text_order(a, a, a);
    }
    assert forall|a: Seq<char>, b: Seq<char>| !#[trigger] lt(a, b) && !lt(b, a) implies a == b by {
        lemma_text_order(a, b, a);
    }
    assert forall|a: Seq<char>, b: Seq<char>, c: Seq<char>| #[trigger]
        lt(a, b) && #[trigger] lt(b, c) implies lt(a, c) by {
        lemma_text_order(a, b, c);
    }
    let le = edge_order();
    assert forall|a: (Seq<char>, Seq<char>)| !#[trigger] le(a, a) by {
        lemma_edge_order(a, a, a);
    }
    assert forall|a: (Seq<char>, Seq<char>), b: (Seq<char>, Seq<char>)| !#[trigger] le(a, b) && !le(
        b,
        a,
    ) implies a == b by {
        lemma_edge_order(a, b, a);
    }
    assert forall|a: (Seq<char>, Seq<char>), b: (Seq<char>, Seq<char>), c: (Seq<char>, Seq<char>)|
     #[trigger]
        le(a, b) && #[trigger] le(b, c) implies le(a, c) by {
        lemma_edge_order(a, b, c);
    }
}

/////////////////
// ANNOTATIONS //
/////////////////
/// The text with `to` in the place of every occurrence of the character
/// `from`.
pub open spec fn spec_replace_each(text: Seq<char>, from: char, to: Seq<char>) -> Seq<char>
    decreases text.len(),
{
    if text.len() == 0 {
        Seq::empty()
    } else {
        spec_replace_each(text.drop_last(), from, to) + if text.last() == from {
            to
        } else {
            seq![text.last()]
        }
    }
}

/// `str::replace` of the standard library, for a pattern of a single
/// character: the result is the text with `to` in the place of every
/// occurrence of that character, and is otherwise the text as it was.
#[verifier::external_body]
fn replace_each(text: &str, from: &str, to: &str) -> (replaced: String)
    requires
        from@.len() == 1,
    ensures
        replaced@ == spec_replace_each(text@, from@[0], to@),
{
    text.replace(from, to)
}

/// What is said of a node or of an edge.
#[derive(Clone)]
pub struct GVAnnotation {
    pub label: Option<String>,
    pub style: Option<String>,
    pub fillcolor: Option<String>,
    pub fontcolor: Option<String>,
    pub shape: Option<String>,
    pub color: Option<String>,
}

/// What an annotation says, as plain texts.
pub struct GVAnnotationView {
    pub label: Option<Seq<char>>,
    pub style: Option<Seq<char>>,
    pub fillcolor: Option<Seq<char>>,
    pub fontcolor: Option<Seq<char>>,
    pub shape: Option<Seq<char>>,
    pub color: Option<Seq<char>>,
}

/// The text of a value that may be missing.
pub open spec fn text_of(value: Option<String>) -> Option<Seq<char>> {
    match value {
        Some(v) => Some(v@),
        None => None,
    }
}

impl View for GVAnnotation {
    type V = GVAnnotationView;

    open spec fn view(&self) -> GVAnnotationView {
        GVAnnotationView {
            label: text_of(self.label),
            style: text_of(self.style),
            fillcolor: text_of(self.fillcolor),
            fontcolor: text_of(self.fontcolor),
            shape: text_of(self.shape),
            color: text_of(self.color),
        }
    }
}

impl GVAnnotationView {
    /// The annotation that says nothing.
    pub open spec fn blank() -> Self {
        GVAnnotationView {
            label: None,
            style: None,
            fillcolor: None,
            fontcolor: None,
            shape: None,
            color: None,
        }
    }
}

/// One attribute as text: its name, and its value between double quotes, with
/// a backslash before every double quote of the value.
pub open spec fn spec_attribute(name: Seq<char>, value: Seq<char>) -> Seq<char> {
    name + "=\""@ + spec_replace_each(value, '"', "\\\""@) + "\""@
}

/// The attributes so far, and one more where it has a value.
pub open spec fn with_attribute(
    attributes: Seq<Seq<char>>,
    name: Seq<char>,
    value: Option<String>,
) -> Seq<Seq<char>> {
    match value {
        Some(v) => attributes.push(spec_attribute(name, v@)),
        None => attributes,
    }
}

/// One attribute as text.
fn attribute(name: &str, value: &String) -> (text: String)
    ensures
        text@ == spec_attribute(name@, value@),
{
    proof {
        reveal_strlit("\"");
    }
    let mut text = String::from_str(name);
    text.append("=\"");
    text.append(replace_each(value.as_str(), "\"", "\\\"").as_str());
    text.append("\"");
    text
}

impl GVAnnotation {
    /// The annotation that says nothing.
    pub open spec fn blank() -> Self {
        GVAnnotation {
            label: None,
            style: None,
            fillcolor: None,
            fontcolor: None,
            shape: None,
            color: None,
        }
    }

    /// The attributes that have a value, each as text, in the order of the fields.
    pub open spec fn spec_attributes(self) -> Seq<Seq<char>> {
        let a = with_attribute(Seq::empty(), "label"@, self.label);
        let b = with_attribute(a, "style"@, self.style);
        let c = with_attribute(b, "fillcolor"@, self.fillcolor);
        let d = with_attribute(c, "fontcolor"@, self.fontcolor);
        let e = with_attribute(d, "shape"@, self.shape);
        with_attribute(e, "color"@, self.color)
    }

    /// The annotation in the DOT language: the attributes that have a value
    /// between square brackets, with a comma and a space between each two; no
    /// text at all where none has a value.
    pub open spec fn spec_annotation_string(self) -> Seq<char> {
        if self.spec_attributes().len() > 0 {
            "["@ + joined(self.spec_attributes(), ", "@) + "]"@
        } else {
            Seq::empty()
        }
    }

    /// The annotation that says nothing.
    pub fn new() -> (annotation: Self)
        ensures
            annotation == Self::blank(),
    {
        Self { label: None, style: None, fillcolor: None, fontcolor: None, shape: None, color: None }
    }

    /// The annotation in the DOT language: see `spec_annotation_string`.
    pub fn to_annotation_string(&self) -> (text: String)
        ensures
            text@ == self.spec_annotation_string(),
    {
        let mut res: Vec<String> = Vec::new();
        let ghost mut items: Seq<Seq<char>> = Seq::empty();
        if let Some(v) = &self.label {
            res.push(attribute("label", v));
        }
        if let Some(v) = &self.style {
            res.push(attribute("style", v));
        }
        if let Some(v) = &self.fillcolor {
            res.push(attribute("fillcolor", v));
        }
        if let Some(v) = &self.fontcolor {
            res.push(attribute("fontcolor", v));
        }
        if let Some(v) = &self.shape {
            res.push(attribute("shape", v));
        }
        if let Some(v) = &self.color {
            res.push(attribute("color", v));
        }
        assert(res@.map_values(|t: String| t@) =~= self.spec_attributes());

        if res.len() > 0 {
            let mut text = String::from_str("[");
            text.append(join(&res, ", ").as_str());
            text.append("]");
            text
        } else {
            String::new()
        }
    }
}

/// The texts with `separator` between each two of them.
pub fn join(texts: &Vec<String>, separator: &str) -> (text: String)
    ensures
        text@ == joined(texts@.map_values(|t: String| t@), separator@),
{
    let ghost lines = texts@.map_values(|t: String| t@);
    let mut text = String::new();
    let mut i: usize = 0;
    assert(lines.take(0) =~= Seq::empty());
    while i < texts.len()
        invariant
            i <= texts.len(),
            lines == texts@.map_values(|t: String| t@),
            text@ == joined(lines.take(i as int), separator@),
        decreases texts.len() - i,
    {
        if i > 0 {
            text.append(separator);
        }
        text.append(texts[i].as_str());
        proof {
            assert(lines.take(i + 1).drop_last() =~= lines.take(i as int));
            assert(lines.take(i + 1).last() == lines[i as int]);
            if i == 0 {
                assert(text@ =~= lines[0]);
            }
        }
        i += 1;
    }
    assert(lines.take(i as int) =~= lines);
    text
}

///////////
// GRAPH //
///////////
/// A directed graph. Its nodes are kept in the order of their keys and its
/// edges in the order of theirs, each with its annotation at the same
/// position; no node and no edge occurs twice.
#[derive(Clone)]
pub struct GVGraph<T: GVNodeKey> {
    pub name: Option<String>,
    pub nodes: Vec<GVNode<T>>,
    pub edges: Vec<GVEdge<T>>,
    pub graph_node_annotation: GVAnnotation,
    pub node_annotations: Vec<GVAnnotation>,
    pub edge_annotations: Vec<GVAnnotation>,
}

/// The keys with `key` among them: in its slot, where it was not there yet.
pub open spec fn keys_with<K>(keys: Seq<K>, key: K, lt: spec_fn(K, K) -> bool) -> Seq<K> {
    if keys.contains(key) {
        keys
    } else {
        keys.insert(slot(keys, key, lt), key)
    }
}

/// The annotations that go with `keys_with`: a blank one in the slot of a key
/// that was not there yet.
pub open spec fn annotations_with<K>(
    keys: Seq<K>,
    annotations: Seq<GVAnnotation>,
    key: K,
    lt: spec_fn(K, K) -> bool,
) -> Seq<GVAnnotation> {
    if keys.contains(key) {
        annotations
    } else {
        annotations.insert(slot(keys, key, lt), GVAnnotation::blank())
    }
}

impl<T: GVNodeKey> GVGraph<T> {
    /// The keys of the nodes, in order.
    pub open spec fn node_keys(self) -> Seq<Seq<char>> {
        self.nodes@.map_values(|n: GVNode<T>| n.spec_key())
    }

    /// The keys of the edges, in order.
    pub open spec fn edge_keys(self) -> Seq<(Seq<char>, Seq<char>)> {
        self.edges@.map_values(|e: GVEdge<T>| e.spec_key())
    }

    /// The invariant of the graph: nodes and edges rise strictly by their
    /// keys, and each has its annotation.
    pub open spec fn well_formed(self) -> bool {
        &&& rises(self.node_keys(), text_order())
        &&& rises(self.edge_keys(), edge_order())
        &&& self.node_annotations@.len() == self.nodes@.len()
        &&& self.edge_annotations@.len() == self.edges@.len()
    }

    /// The graph has a node with this key.
    pub open spec fn has_node(self, key: Seq<char>) -> bool {
        self.node_keys().contains(key)
    }

    /// The graph has an edge between the nodes with these keys.
    pub open spec fn has_edge(self, from: Seq<char>, to: Seq<char>) -> bool {
        self.edge_keys().contains((from, to))
    }

    /// The position at which the node with this key stands or would stand.
    pub open spec fn node_slot(self, key: Seq<char>) -> int {
        slot(self.node_keys(), key, text_order())
    }

    /// The position at which the edge with these keys stands or would stand.
    pub open spec fn edge_slot(self, from: Seq<char>, to: Seq<char>) -> int {
        slot(self.edge_keys(), (from, to), edge_order())
    }

    /// The graph without nodes and edges.
    pub fn new(name: Option<String>) -> (graph: Self)
        ensures
            graph.well_formed(),
            graph.name == name,
            graph.nodes@.len() == 0,
            graph.edges@.len() == 0,
            graph.node_annotations@.len() == 0,
            graph.edge_annotations@.len() == 0,
            graph.graph_node_annotation == GVAnnotation::blank(),
    {
        Self {
            name,
            nodes: Vec::new(),
            edges: Vec::new(),
            graph_node_annotation: GVAnnotation::new(),
            node_annotations: Vec::new(),
            edge_annotations: Vec::new(),
        }
    }

    /// The slot of the node with this key, and whether the node is there.
    pub fn find_node(&self, key: &T) -> (found: (usize, bool))
        requires
            self.well_formed(),
        ensures
            found.0 == self.node_slot(key.spec_text()),
            found.1 == self.has_node(key.spec_text()),
            found.0 <= self.nodes@.len(),
            found.1 ==> found.0 < self.nodes@.len() && self.node_keys()[found.0 as int]
                == key.spec_text(),
    {
        let text = key.to_text();
        let ghost keys = self.node_keys();
        proof {
            lemma_orders();
        }
        let mut i: usize = 0;
        while i < self.nodes.len()
            invariant
                i <= self.nodes.len(),
                self.well_formed(),
                keys == self.node_keys(),
                text@ == key.spec_text(),
                forall|k: int| 0 <= k < i ==> text_before(#[trigger] keys[k], text@),
            decreases self.nodes.len() - i,
        {
            let other = self.nodes[i].0.to_text();
            assert(other@ == keys[i as int]);
            if !comes_before(other.as_str(), text.as_str()) {
                let same = !comes_before(text.as_str(), other.as_str());
                proof {
                    assert forall|k: int| 0 <= k < i implies (text_order())(
                        #[trigger] keys[k],
                        text@,
                    ) by {
                        assert(text_before(keys[k], text@));
                    }
                    lemma_orders();
                    lemma_slot(keys, text@, text_order(), i as int);
                    lemma_text_order(other@, text@, other@);
                }
                return (i, same);
            }
            i += 1;
        }
        proof {
            assert forall|k: int| 0 <= k < i implies (text_order())(#[trigger] keys[k], text@) by {
                assert(text_before(keys[k], text@));
            }
            lemma_slot(keys, text@, text_order(), i as int);
        }
        (i, false)
    }

    /// The slot of the edge with these keys, and whether the edge is there.
    pub fn find_edge(&self, from: &T, to: &T) -> (found: (usize, bool))
        requires
            self.well_formed(),
        ensures
            found.0 == self.edge_slot(from.spec_text(), to.spec_text()),
            found.1 == self.has_edge(from.spec_text(), to.spec_text()),
            found.0 <= self.edges@.len(),
            found.1 ==> found.0 < self.edges@.len() && self.edge_keys()[found.0 as int] == (
                from.spec_text(),
                to.spec_text(),
            ),
    {
        let start = from.to_text();
        let end = to.to_text();
        let ghost keys = self.edge_keys();
        let ghost wanted = (from.spec_text(), to.spec_text());
        proof {
            lemma_orders();
        }
        let mut i: usize = 0;
        while i < self.edges.len()
            invariant
                i <= self.edges.len(),
                self.well_formed(),
                keys == self.edge_keys(),
                wanted == (start@, end@),
                start@ == from.spec_text(),
                end@ == to.spec_text(),
                forall|k: int| 0 <= k < i ==> edge_before(#[trigger] keys[k], wanted),
            decreases self.edges.len() - i,
        {
            let other_start = self.edges[i].0.to_text();
            let other_end = self.edges[i].1.to_text();
            assert((other_start@, other_end@) == keys[i as int]);
            let start_before = comes_before(other_start.as_str(), start.as_str());
            let start_after = comes_before(start.as_str(), other_start.as_str());
            let end_before = comes_before(other_end.as_str(), end.as_str());
            let end_after = comes_before(end.as_str(), other_end.as_str());
            proof {
                lemma_text_order(other_start@, start@, other_start@);
                lemma_text_order(other_end@, end@, other_end@);
            }
            let before = start_before || (!start_after && end_before);
            if !before {
                let same = !start_after && !end_after;
                proof {
                    assert forall|k: int| 0 <= k < i implies (edge_order())(
                        #[trigger] keys[k],
                        wanted,
                    ) by {
                        assert(edge_before(keys[k], wanted));
                    }
                    lemma_orders();
                    lemma_slot(keys, wanted, edge_order(), i as int);
                }
                return (i, same);
            }
            i += 1;
        }
        proof {
            assert forall|k: int| 0 <= k < i implies (edge_order())(#[trigger] keys[k], wanted) by {
                assert(edge_before(keys[k], wanted));
            }
            lemma_slot(keys, wanted, edge_order(), i as int);
        }
        (i, false)
    }

    /// Adds a node with a blank annotation, unless the graph has a node with
    /// this key already.
    pub fn add_node(&mut self, key: T)
        requires
            old(self).well_formed(),
        ensures
            final(self).well_formed(),
            final(self).node_keys() == keys_with(
                old(self).node_keys(),
                key.spec_text(),
                text_order(),
            ),
            final(self).node_annotations@ == annotations_with(
                old(self).node_keys(),
                old(self).node_annotations@,
                key.spec_text(),
                text_order(),
            ),
            final(self).has_node(key.spec_text()),
            final(self).name == old(self).name,
            final(self).edges == old(self).edges,
            final(self).edge_annotations == old(self).edge_annotations,
            final(self).graph_node_annotation == old(self).graph_node_annotation,
            old(self).has_node(key.spec_text()) ==> *final(self) == *old(self),
            final(self).content() == old(self).content().with_node(key.spec_text()),
    {
        let ghost keys = self.node_keys();
        let ghost notes = self.node_notes();
        let ghost text = key.spec_text();
        let (pos, found) = self.find_node(&key);
        if !found {
            proof {
                lemma_orders();
                lemma_slot_keeps_rising(keys, text, text_order());
                lemma_assoc_insert(keys, notes, text_order(), text, GVAnnotationView::blank());
            }
            self.nodes.insert(pos, GVNode(key));
            self.node_annotations.insert(pos, GVAnnotation::new());
            assert(self.node_keys() =~= keys.insert(pos as int, text));
            assert(self.node_keys()[pos as int] == text);
            assert(self.node_notes() =~= notes.insert(pos as int, GVAnnotationView::blank()));
        }
    }

    /// Adds an edge with a blank annotation, and the nodes at its two ends
    /// where the graph lacks them, unless the graph has this edge already.
    pub fn add_edge(&mut self, from: T, to: T)
        requires
            old(self).well_formed(),
        ensures
            final(self).well_formed(),
            final(self).name == old(self).name,
            final(self).graph_node_annotation == old(self).graph_node_annotation,
            final(self).has_edge(from.spec_text(), to.spec_text()),
            old(self).has_edge(from.spec_text(), to.spec_text()) ==> *final(self) == *old(self),
            !old(self).has_edge(from.spec_text(), to.spec_text()) ==> {
                let with_start = keys_with(old(self).node_keys(), from.spec_text(), text_order());
                &&& final(self).node_keys() == keys_with(with_start, to.spec_text(), text_order())
                &&& final(self).node_annotations@ == annotations_with(
                    with_start,
                    annotations_with(
                        old(self).node_keys(),
                        old(self).node_annotations@,
                        from.spec_text(),
                        text_order(),
                    ),
                    to.spec_text(),
                    text_order(),
                )
                &&& final(self).edge_keys() == old(self).edge_keys().insert(
                    old(self).edge_slot(from.spec_text(), to.spec_text()),
                    (from.spec_text(), to.spec_text()),
                )
                &&& final(self).edge_annotations@ == old(self).edge_annotations@.insert(
                    old(self).edge_slot(from.spec_text(), to.spec_text()),
                    GVAnnotation::blank(),
                )
            },
            final(self).content() == old(self).content().with_edge(
                from.spec_text(),
                to.spec_text(),
            ),
    {
        let ghost keys = self.edge_keys();
        let ghost notes = self.edge_notes();
        let ghost wanted = (from.spec_text(), to.spec_text());
        let (pos, found) = self.find_edge(&from, &to);
        if !found {
            self.add_node(from.duplicate());
            self.add_node(to.duplicate());
            proof {
                lemma_orders();
                lemma_slot_keeps_rising(keys, wanted, edge_order());
                lemma_assoc_insert(keys, notes, edge_order(), wanted, GVAnnotationView::blank());
            }
            self.edges.insert(pos, GVEdge(from, to));
            self.edge_annotations.insert(pos, GVAnnotation::new());
            assert(self.edge_keys() =~= keys.insert(pos as int, wanted));
            assert(self.edge_keys()[pos as int] == wanted);
            assert(self.edge_notes() =~= notes.insert(pos as int, GVAnnotationView::blank()));
        }
    }

    /// What is said of all nodes.
    pub fn get_graph_node_annotation(&self) -> (annotation: &GVAnnotation)
        ensures
            *annotation == self.graph_node_annotation,
    {
        &self.graph_node_annotation
    }

    /// The annotation of the node with this key, if the graph has such a node.
    pub fn get_node_annotation(&self, key: T) -> (annotation: Option<&GVAnnotation>)
        requires
            self.well_formed(),
        ensures
            match annotation {
                Some(a) => self.has_node(key.spec_text()) && *a == self.node_annotations@[self.node_slot(
                    key.spec_text(),
                )],
                None => !self.has_node(key.spec_text()),
            },
    {
        let (pos, found) = self.find_node(&key);
        if found {
            Some(&self.node_annotations[pos])
        } else {
            None
        }
    }

    /// The annotation of the edge between the nodes with these keys, if the graph
    /// has such an edge.
    pub fn get_edge_annotation(&self, from: T, to: T) -> (annotation: Option<&GVAnnotation>)
        requires
            self.well_formed(),
        ensures
            match annotation {
                Some(a) => self.has_edge(from.spec_text(), to.spec_text()) && *a
                    == self.edge_annotations@[self.edge_slot(from.spec_text(), to.spec_text())],
                None => !self.has_edge(from.spec_text(), to.spec_text()),
            },
    {
        let (pos, found) = self.find_edge(&from, &to);
        if found {
            Some(&self.edge_annotations[pos])
        } else {
            None
        }
    }
}

/// The lines of the first `n` nodes in the DOT language: a tab, the key, a
/// space, the annotation, a semicolon.
pub open spec fn spec_node_lines(
    keys: Seq<Seq<char>>,
    annotations: Seq<GVAnnotation>,
    n: int,
) -> Seq<char>
    decreases n,
{
    if n <= 0 {
        Seq::empty()
    } else {
        spec_node_lines(keys, annotations, n - 1) + "\t"@ + keys[n - 1] + " "@ + annotations[n
            - 1].spec_annotation_string() + ";\n"@
    }
}

/// The lines of the first `n` edges in the DOT language: a tab, the two keys
/// with an arrow between them, a space, the annotation, a semicolon.
pub open spec fn spec_edge_lines(
    keys: Seq<(Seq<char>, Seq<char>)>,
    annotations: Seq<GVAnnotation>,
    n: int,
) -> Seq<char>
    decreases n,
{
    if n <= 0 {
        Seq::empty()
    } else {
        spec_edge_lines(keys, annotations, n - 1) + "\t"@ + keys[n - 1].0 + " -> "@ + keys[n
            - 1].1 + " "@ + annotations[n - 1].spec_annotation_string() + ";\n"@
    }
}

impl<T: GVNodeKey> GVGraph<T> {
    /// The graph in the DOT language: its name, the annotation of all nodes
    /// where it says anything, the nodes in order, the edges in order.
    pub open spec fn spec_dot(self) -> Seq<char> {
        let name = match self.name {
            Some(n) => n@,
            None => Seq::empty(),
        };
        let all = self.graph_node_annotation.spec_annotation_string();
        "digraph "@ + name + " {\n"@ + (if all.len() > 0 {
            "\tnode "@ + all + ";\n"@
        } else {
            Seq::empty()
        }) + spec_node_lines(self.node_keys(), self.node_annotations@, self.nodes@.len() as int)
            + spec_edge_lines(self.edge_keys(), self.edge_annotations@, self.edges@.len() as int)
            + "}"@
    }

    /// The graph in the DOT language.
    pub fn to_dot_string(&self) -> (text: String)
        requires
            self.well_formed(),
        ensures
            text@ == self.spec_dot(),
    {
        let mut text = String::from_str("digraph ");
        match &self.name {
            Some(name) => {
                text.append(name.as_str());
            },
            None => {
                assert(text@ + Seq::<char>::empty() =~= text@);
            },
        }
        text.append(" {\n");

        let node_annot = self.graph_node_annotation.to_annotation_string();
        if node_annot.as_str().unicode_len() > 0 {
            text.append("\tnode ");
            text.append(node_annot.as_str());
            text.append(";\n");
        } else {
            assert(text@ + Seq::<char>::empty() =~= text@);
        }
        let ghost head = text@;
        let ghost keys = self.node_keys();
        assert(head + spec_node_lines(keys, self.node_annotations@, 0) =~= head);

        let mut i: usize = 0;
        while i < self.nodes.len()
            invariant
                i <= self.nodes.len(),
                self.well_formed(),
                keys == self.node_keys(),
                text@ == head + spec_node_lines(keys, self.node_annotations@, i as int),
            decreases self.nodes.len() - i,
        {
            let ghost before = text@;
            text.append("\t");
            text.append(self.nodes[i].0.to_text().as_str());
            text.append(" ");
            text.append(self.node_annotations[i].to_annotation_string().as_str());
            text.append(";\n");
            assert(keys[i as int] == self.nodes@[i as int].0.spec_text());
            assert(text@ =~= head + spec_node_lines(keys, self.node_annotations@, i + 1));
            i += 1;
        }
        let ghost middle = text@;
        let ghost links = self.edge_keys();
        assert(middle + spec_edge_lines(links, self.edge_annotations@, 0) =~= middle);

        let mut j: usize = 0;
        while j < self.edges.len()
            invariant
                j <= self.edges.len(),
                self.well_formed(),
                links == self.edge_keys(),
                text@ == middle + spec_edge_lines(links, self.edge_annotations@, j as int),
            decreases self.edges.len() - j,
        {
            text.append("\t");
            text.append(self.edges[j].0.to_text().as_str());
            text.append(" -> ");
            text.append(self.edges[j].1.to_text().as_str());
            text.append(" ");
            text.append(self.edge_annotations[j].to_annotation_string().as_str());
            text.append(";\n");
            assert(links[j as int] == self.edges@[j as int].spec_key());
            assert(text@ =~= middle + spec_edge_lines(links, self.edge_annotations@, j + 1));
            j += 1;
        }
        text.append("}");
        text
    }

    /// What is said of all nodes, to be changed.
    pub fn get_graph_node_annotation_mut(&mut self) -> (annotation: &mut GVAnnotation)
        ensures
            old(self).well_formed() ==> final(self).well_formed(),
            *annotation == old(self).graph_node_annotation,
            final(self).graph_node_annotation == *final(annotation),
            final(self).name == old(self).name,
            final(self).nodes == old(self).nodes,
            final(self).edges == old(self).edges,
            final(self).node_annotations == old(self).node_annotations,
            final(self).edge_annotations == old(self).edge_annotations,
    {
        &mut self.graph_node_annotation
    }

    /// The annotation of the node with this key, to be changed, if the graph has
    /// such a node.
    pub fn get_node_annotation_mut(&mut self, key: T) -> (annotation: Option<&mut GVAnnotation>)
        requires
            old(self).well_formed(),
        ensures
            final(self).well_formed(),
            final(self).name == old(self).name,
            final(self).nodes == old(self).nodes,
            final(self).edges == old(self).edges,
            final(self).graph_node_annotation == old(self).graph_node_annotation,
            final(self).edge_annotations == old(self).edge_annotations,
            match annotation {
                Some(a) => {
                    let at = old(self).node_slot(key.spec_text());
                    &&& old(self).has_node(key.spec_text())
                    &&& *a == old(self).node_annotations@[at]
                    &&& a@ == old(self).content().nodes[key.spec_text()]
                    &&& final(self).node_annotations@ == old(self).node_annotations@.update(
                        at,
                        *final(a),
                    )
                    &&& final(self).content() == old(self).content().with_annotation(
                        key.spec_text(),
                        final(a)@,
                    )
                },
                None => !old(self).has_node(key.spec_text()) && final(self).node_annotations
                    == old(self).node_annotations,
            },
    {
        let (pos, found) = self.find_node(&key);
        proof {
            lemma_orders();
            if found {
                assert forall|value: GVAnnotationView| #[trigger]
                    assoc(
                        self.node_keys(),
                        self.node_notes().update(pos as int, value),
                        text_order(),
                    ) == self.content().nodes.insert(key.spec_text(), value) by {
                    lemma_assoc_update(
                        self.node_keys(),
                        self.node_notes(),
                        text_order(),
                        pos as int,
                        value,
                    );
                }
                assert forall|a: GVAnnotation| #[trigger]
                    notes_of(self.node_annotations@.update(pos as int, a))
                        == self.node_notes().update(pos as int, a@) by {
                    assert(notes_of(self.node_annotations@.update(pos as int, a))
                        =~= self.node_notes().update(pos as int, a@));
                }
            }
        }
        if found {
            Some(&mut self.node_annotations[pos])
        } else {
            None
        }
    }

    /// The annotation of the edge between the nodes with these keys, to be
    /// changed, if the graph has such an edge.
    pub fn get_edge_annotation_mut(&mut self, from: T, to: T) -> (annotation: Option<
        &mut GVAnnotation,
    >)
        requires
            old(self).well_formed(),
        ensures
            final(self).well_formed(),
            final(self).name == old(self).name,
            final(self).nodes == old(self).nodes,
            final(self).edges == old(self).edges,
            final(self).graph_node_annotation == old(self).graph_node_annotation,
            final(self).node_annotations == old(self).node_annotations,
            match annotation {
                Some(a) => {
                    let at = old(self).edge_slot(from.spec_text(), to.spec_text());
                    &&& old(self).has_edge(from.spec_text(), to.spec_text())
                    &&& *a == old(self).edge_annotations@[at]
                    &&& a@ == old(self).content().edges[(from.spec_text(), to.spec_text())]
                    &&& final(self).edge_annotations@ == old(self).edge_annotations@.update(
                        at,
                        *final(a),
                    )
                    &&& final(self).content() == old(self).content().with_edge_annotation(
                        from.spec_text(),
                        to.spec_text(),
                        final(a)@,
                    )
                },
                None => !old(self).has_edge(from.spec_text(), to.spec_text())
                    && final(self).edge_annotations == old(self).edge_annotations,
            },
    {
        let (pos, found) = self.find_edge(&from, &to);
        proof {
            lemma_orders();
            if found {
                assert forall|value: GVAnnotationView| #[trigger]
                    assoc(
                        self.edge_keys(),
                        self.edge_notes().update(pos as int, value),
                        edge_order(),
                    ) == self.content().edges.insert(
                        (from.spec_text(), to.spec_text()),
                        value,
                    ) by {
                    lemma_assoc_update(
                        self.edge_keys(),
                        self.edge_notes(),
                        edge_order(),
                        pos as int,
                        value,
                    );
                }
                assert forall|a: GVAnnotation| #[trigger]
                    notes_of(self.edge_annotations@.update(pos as int, a))
                        == self.edge_notes().update(pos as int, a@) by {
                    assert(notes_of(self.edge_annotations@.update(pos as int, a))
                        =~= self.edge_notes().update(pos as int, a@));
                }
            }
        }
        if found {
            Some(&mut self.edge_annotations[pos])
        } else {
            None
        }
    }
}

//////////////////////
// WHAT A GRAPH HOLDS //
//////////////////////
/// The keys of a rising run, each with the value at its position.
pub open spec fn assoc<K, V>(keys: Seq<K>, values: Seq<V>, lt: spec_fn(K, K) -> bool) -> Map<K, V> {
    Map::new(|k: K| keys.contains(k), |k: K| values[slot(keys, k, lt)])
}

/// In a rising run, the slot of a key of the run is its position.
pub proof fn lemma_slot_of_member<K>(keys: Seq<K>, lt: spec_fn(K, K) -> bool, i: int)
    requires
        is_order(lt),
        rises(keys, lt),
        0 <= i < keys.len(),
    ensures
        slot(keys, keys[i], lt) == i,
{
    assert forall|k: int| 0 <= k < i implies lt(#[trigger] keys[k], keys[i]) by {}
    lemma_slot(keys, keys[i], lt, i);
}

/// A new key put into its slot, with its value at the same position.
pub proof fn lemma_assoc_insert<K, V>(
    keys: Seq<K>,
    values: Seq<V>,
    lt: spec_fn(K, K) -> bool,
    key: K,
    value: V,
)
    requires
        is_order(lt),
        rises(keys, lt),
        values.len() == keys.len(),
        !keys.contains(key),
    ensures
        assoc(
            keys.insert(slot(keys, key, lt), key),
            values.insert(slot(keys, key, lt), value),
            lt,
        ) == assoc(keys, values, lt).insert(key, value),
{
    let p = slot(keys, key, lt);
    let more = keys.insert(p, key);
    let more_values = values.insert(p, value);
    let before = assoc(keys, values, lt);
    let after = assoc(more, more_values, lt);
    lemma_slot_keeps_rising(keys, key, lt);
    assert(more[p] == key);
    assert forall|k: K| after.dom().contains(k) <==> before.insert(key, value).dom().contains(
        k,
    ) by {
        if more.contains(k) {
            let i = choose|i: int| 0 <= i < more.len() && more[i] == k;
            if i < p {
                assert(keys[i] == k);
            } else if i > p {
                assert(keys[i - 1] == k);
            }
        }
        if keys.contains(k) {
            let i = choose|i: int| 0 <= i < keys.len() && keys[i] == k;
            if i < p {
                assert(more[i] == k);
            } else {
                assert(more[i + 1] == k);
            }
        }
    }
    assert forall|k: K| after.dom().contains(k) implies after[k] == before.insert(key, value)[k] by {
        let i = choose|i: int| 0 <= i < more.len() && more[i] == k;
        lemma_slot_of_member(more, lt, i);
        if i < p {
            assert(keys[i] == k);
            lemma_slot_of_member(keys, lt, i);
        } else if i > p {
            assert(keys[i - 1] == k);
            lemma_slot_of_member(keys, lt, i - 1);
        }
    }
    assert(after =~= before.insert(key, value));
}

/// A new value at the position of a key of the run.
pub proof fn lemma_assoc_update<K, V>(
    keys: Seq<K>,
    values: Seq<V>,
    lt: spec_fn(K, K) -> bool,
    i: int,
    value: V,
)
    requires
        is_order(lt),
        rises(keys, lt),
        values.len() == keys.len(),
        0 <= i < keys.len(),
    ensures
        assoc(keys, values.update(i, value), lt) == assoc(keys, values, lt).insert(keys[i], value),
{
    let before = assoc(keys, values, lt);
    let after = assoc(keys, values.update(i, value), lt);
    assert forall|k: K| after.dom().contains(k) implies after[k] == before.insert(keys[i], value)[k] by {
        let j = choose|j: int| 0 <= j < keys.len() && keys[j] == k;
        lemma_slot_of_member(keys, lt, j);
        lemma_slot_of_member(keys, lt, i);
    }
    assert(after =~= before.insert(keys[i], value));
}

/// What a graph holds: its nodes and its edges by their keys, each with what
/// its annotation says.
pub struct GraphContent {
    pub nodes: Map<Seq<char>, GVAnnotationView>,
    pub edges: Map<(Seq<char>, Seq<char>), GVAnnotationView>,
}

impl GraphContent {
    /// With a node of this key, blank unless it was there.
    pub open spec fn with_node(self, key: Seq<char>) -> Self {
        if self.nodes.dom().contains(key) {
            self
        } else {
            GraphContent { nodes: self.nodes.insert(key, GVAnnotationView::blank()), ..self }
        }
    }

    /// With an edge between these keys, blank unless it was there, and with
    /// the nodes at its ends where it was not there.
    pub open spec fn with_edge(self, from: Seq<char>, to: Seq<char>) -> Self {
        if self.edges.dom().contains((from, to)) {
            self
        } else {
            let ends = self.with_node(from).with_node(to);
            GraphContent {
                edges: ends.edges.insert((from, to), GVAnnotationView::blank()),
                ..ends
            }
        }
    }

    /// With this annotation for the edge between these keys, where there is
    /// such an edge.
    pub open spec fn with_edge_annotation(
        self,
        from: Seq<char>,
        to: Seq<char>,
        annotation: GVAnnotationView,
    ) -> Self {
        if self.edges.dom().contains((from, to)) {
            GraphContent { edges: self.edges.insert((from, to), annotation), ..self }
        } else {
            self
        }
    }

    /// With this annotation for the node of this key, where there is such a
    /// node.
    pub open spec fn with_annotation(self, key: Seq<char>, annotation: GVAnnotationView) -> Self {
        if self.nodes.dom().contains(key) {
            GraphContent { nodes: self.nodes.insert(key, annotation), ..self }
        } else {
            self
        }
    }
}

/// What each of the annotations says.
pub open spec fn notes_of(annotations: Seq<GVAnnotation>) -> Seq<GVAnnotationView> {
    annotations.map_values(|a: GVAnnotation| a@)
}

impl<T: GVNodeKey> GVGraph<T> {
    /// What the annotations of the nodes say, in the order of the nodes.
    pub open spec fn node_notes(self) -> Seq<GVAnnotationView> {
        notes_of(self.node_annotations@)
    }

    /// What the annotations of the edges say, in the order of the edges.
    pub open spec fn edge_notes(self) -> Seq<GVAnnotationView> {
        notes_of(self.edge_annotations@)
    }

    /// What the graph holds.
    pub open spec fn content(self) -> GraphContent {
        GraphContent {
            nodes: assoc(self.node_keys(), self.node_notes(), text_order()),
            edges: assoc(self.edge_keys(), self.edge_notes(), edge_order()),
        }
    }
}

} // verus!
