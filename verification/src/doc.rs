//! Ordered tree of named, attributed element nodes: the structured-document
//! model that configuration payloads and the player profile are edited in.
//!
//! Only element children take part in lookups; other node kinds (text,
//! comments and the like) are carried through untouched so a document can be
//! rewritten without loss.

use vstd::prelude::*;

verus! {

/// One element of a structured document: a tag name, an ordered attribute
/// list, and an ordered list of child nodes.
pub struct Node {
    pub name: String,
    pub attributes: Vec<(String, String)>,
    pub children: Vec<Child>,
}

/// A child of an element. Lookups see only the `Element` variant; the other
/// kinds are preserved as written.
pub enum Child {
    Element(Node),
    Text(String),
    Comment(String),
    CData(String),
    ProcessingInstruction(String, Option<String>),
}

/// The element inside a child known to be an element.
pub open spec fn elem_of(c: Child) -> Node {
    match c {
        Child::Element(n) => n,
        _ => arbitrary(),
    }
}

/// True when the attribute list carries `key` with value `val`.
pub open spec fn spec_has_attr(n: Node, key: Seq<char>, val: Seq<char>) -> bool {
    exists|i: int|
        0 <= i < n.attributes@.len() && (#[trigger] n.attributes@[i]).0@ == key
            && n.attributes@[i].1@ == val
}

/// True when `c` is an element with tag `tag` carrying the identifying
/// attribute pair `key = val`.
pub open spec fn child_matches(c: Child, tag: Seq<char>, key: Seq<char>, val: Seq<char>) -> bool {
    &&& c matches Child::Element(n)
    &&& n.name@ == tag
    &&& spec_has_attr(n, key, val)
}

/// True when `c` is an element with tag `tag`.
pub open spec fn child_has_tag(c: Child, tag: Seq<char>) -> bool {
    &&& c matches Child::Element(n)
    &&& n.name@ == tag
}

/// Index of the first element of `s` satisfying `p`, if any.
pub open spec fn first_where<T>(s: Seq<T>, p: spec_fn(T) -> bool) -> Option<int>
    decreases s.len(),
{
    if s.len() == 0 {
        Option::None
    } else if p(s[0]) {
        Option::Some(0)
    } else {
        match first_where(s.drop_first(), p) {
            Option::Some(i) => Option::Some(i + 1),
            Option::None => Option::None,
        }
    }
}

/// `first_where` finds exactly the first satisfying index: if nothing below
/// `j` satisfies `p` and `j` does (or `j` is the length), the result is `j`
/// (respectively nothing).
pub proof fn lemma_first_where_at<T>(s: Seq<T>, p: spec_fn(T) -> bool, j: int)
    requires
        0 <= j <= s.len(),
        forall|k: int| 0 <= k < j ==> !p(#[trigger] s[k]),
        j < s.len() ==> p(s[j]),
    ensures
        first_where(s, p) == if j < s.len() {
            Option::Some(j)
        } else {
            Option::None
        },
    decreases s.len(),
{
    if s.len() != 0 && !p(s[0]) {
        let t = s.drop_first();
        assert(forall|k: int| 0 <= k < j - 1 ==> !p(#[trigger] t[k]));
        lemma_first_where_at(t, p, j - 1);
    }
}

/// When `first_where` finds nothing, no element satisfies `p`.
pub proof fn lemma_first_where_none<T>(s: Seq<T>, p: spec_fn(T) -> bool)
    requires
        first_where(s, p) is None,
    ensures
        forall|k: int| 0 <= k < s.len() ==> !p(#[trigger] s[k]),
    decreases s.len(),
{
    if s.len() != 0 {
        let t = s.drop_first();
        lemma_first_where_none(t, p);
        assert(forall|k: int| 1 <= k < s.len() ==> s[k] == t[k - 1]);
    }
}

/// When `first_where` finds an index, that element satisfies `p` and no
/// earlier one does.
pub proof fn lemma_first_where_some<T>(s: Seq<T>, p: spec_fn(T) -> bool, i: int)
    requires
        first_where(s, p) == Option::Some(i),
    ensures
        0 <= i < s.len(),
        p(s[i]),
        forall|k: int| 0 <= k < i ==> !p(#[trigger] s[k]),
    decreases s.len(),
{
    if s.len() != 0 && !p(s[0]) {
        let t = s.drop_first();
        lemma_first_where_some(t, p, i - 1);
        assert(forall|k: int| 1 <= k < s.len() ==> s[k] == t[k - 1]);
    }
}

/// Index of the first child of `n` matching tag and identifying attribute.
pub open spec fn find_match(s: Seq<Child>, tag: Seq<char>, key: Seq<char>, val: Seq<char>) -> Option<
    int,
> {
    first_where(s, |c: Child| child_matches(c, tag, key, val))
}

/// Index of the first element child of `n` with tag `tag`.
pub open spec fn find_tag(s: Seq<Child>, tag: Seq<char>) -> Option<int> {
    first_where(s, |c: Child| child_has_tag(c, tag))
}

/// Equality of two strings, as equality of their character sequences.
pub fn string_eq(a: &String, b: &String) -> (r: bool)
    ensures
        r == (a@ == b@),
{
    *a == *b
}

fn has_attr(n: &Node, key: &String, val: &String) -> (r: bool)
    ensures
        r == spec_has_attr(*n, key@, val@),
{
    let m = n.attributes.len();
    let mut i: usize = 0;
    while i < m
        invariant
            m == n.attributes@.len(),
            i <= m,
            forall|k: int|
                0 <= k < i ==> !((#[trigger] n.attributes@[k]).0@ == key@ && n.attributes@[k].1@
                    == val@),
        decreases m - i,
    {
        if n.attributes[i].0 == *key && n.attributes[i].1 == *val {
            return true;
        }
        i += 1;
    }
    false
}

/// Scan the element children of `parent` in order for the first with tag
/// `tag` carrying `key = val`.
pub fn find_child(parent: &Node, tag: &String, key: &String, val: &String) -> (r: Option<usize>)
    ensures
        r matches Some(i) ==> i < parent.children@.len() && find_match(
            parent.children@,
            tag@,
            key@,
            val@,
        ) == Option::Some(i as int),
        r is None ==> find_match(parent.children@, tag@, key@, val@) is None,
{
    let m = parent.children.len();
    let mut i: usize = 0;
    while i < m
        invariant
            m == parent.children@.len(),
            i <= m,
            forall|k: int|
                0 <= k < i ==> !child_matches(#[trigger] parent.children@[k], tag@, key@, val@),
        decreases m - i,
    {
        match &parent.children[i] {
            Child::Element(n) => {
                if n.name == *tag && has_attr(n, key, val) {
                    proof {
                        lemma_first_where_at(
                            parent.children@,
                            |c: Child| child_matches(c, tag@, key@, val@),
                            i as int,
                        );
                    }
                    return Some(i);
                }
            },
            _ => {},
        }
        i += 1;
    }
    proof {
        lemma_first_where_at(
            parent.children@,
            |c: Child| child_matches(c, tag@, key@, val@),
            m as int,
        );
    }
    None
}

/// Scan the element children of `parent` in order for the first with tag
/// `tag`, regardless of attributes.
pub fn find_child_by_tag(parent: &Node, tag: &String) -> (r: Option<usize>)
    ensures
        r matches Some(i) ==> i < parent.children@.len() && find_tag(parent.children@, tag@)
            == Option::Some(i as int),
        r is None ==> find_tag(parent.children@, tag@) is None,
{
    let m = parent.children.len();
    let mut i: usize = 0;
    while i < m
        invariant
            m == parent.children@.len(),
            i <= m,
            forall|k: int| 0 <= k < i ==> !child_has_tag(#[trigger] parent.children@[k], tag@),
        decreases m - i,
    {
        match &parent.children[i] {
            Child::Element(n) => {
                if n.name == *tag {
                    proof {
                        lemma_first_where_at(
                            parent.children@,
                            |c: Child| child_has_tag(c, tag@),
                            i as int,
                        );
                    }
                    return Some(i);
                }
            },
            _ => {},
        }
        i += 1;
    }
    proof {
        lemma_first_where_at(parent.children@, |c: Child| child_has_tag(c, tag@), m as int);
    }
    None
}

/// True when `c` is a freshly created element: tag `tag`, the single
/// attribute `key = val`, and no children.
pub open spec fn fresh_element(c: Child, tag: Seq<char>, key: Seq<char>, val: Seq<char>) -> bool {
    &&& c matches Child::Element(n)
    &&& n.name@ == tag
    &&& n.attributes@.len() == 1
    &&& n.attributes@[0].0@ == key
    &&& n.attributes@[0].1@ == val
    &&& n.children@.len() == 0
}

/// True when `c` is a freshly created container element: tag `tag`, no
/// attributes, no children.
pub open spec fn fresh_container(c: Child, tag: Seq<char>) -> bool {
    &&& c matches Child::Element(n)
    &&& n.name@ == tag
    &&& n.attributes@.len() == 0
    &&& n.children@.len() == 0
}

/// What `find_or_create_child` does: if a matching child existed, nothing
/// changes and `i` is the first match; otherwise exactly one fresh matching
/// element is appended at `i`, after every existing child.
pub open spec fn foc_post(
    pre: Node,
    post: Node,
    i: int,
    tag: Seq<char>,
    key: Seq<char>,
    val: Seq<char>,
) -> bool {
    &&& post.name == pre.name
    &&& post.attributes == pre.attributes
    &&& 0 <= i < post.children@.len()
    &&& find_match(post.children@, tag, key, val) == Option::Some(i)
    &&& match find_match(pre.children@, tag, key, val) {
        Option::Some(_) => post == pre,
        Option::None => {
            &&& i == pre.children@.len()
            &&& post.children@ == pre.children@.push(post.children@[i])
            &&& fresh_element(post.children@[i], tag, key, val)
        },
    }
}

/// The container analogue of [`foc_post`], matching on the tag alone.
pub open spec fn foc_tag_post(pre: Node, post: Node, i: int, tag: Seq<char>) -> bool {
    &&& post.name == pre.name
    &&& post.attributes == pre.attributes
    &&& 0 <= i < post.children@.len()
    &&& find_tag(post.children@, tag) == Option::Some(i)
    &&& match find_tag(pre.children@, tag) {
        Option::Some(_) => post == pre,
        Option::None => {
            &&& i == pre.children@.len()
            &&& post.children@ == pre.children@.push(post.children@[i])
            &&& fresh_container(post.children@[i], tag)
        },
    }
}

/// Return the index of the first element child of `parent` whose tag is
/// `tag` and whose attributes contain `key = val`; if there is none, append
/// a fresh element with that tag and that one attribute as the last child
/// (order-preserving) and return its index.
pub fn find_or_create_child(parent: &mut Node, tag: &String, key: &String, val: &String) -> (i:
    usize)
    ensures
        foc_post(*old(parent), *final(parent), i as int, tag@, key@, val@),
{
    match find_child(parent, tag, key, val) {
        Some(i) => i,
        None => {
            let i = parent.children.len();
            let mut attributes: Vec<(String, String)> = Vec::new();
            attributes.push((key.clone(), val.clone()));
            let fresh = Node { name: tag.clone(), attributes, children: Vec::new() };
            let c = Child::Element(fresh);
            let ghost gc = c;
            let ghost pre = *parent;
            parent.children.push(c);
            proof {
                lemma_first_where_none(pre.children@, |c: Child| child_matches(c, tag@, key@, val@));
                assert(parent.children@ == pre.children@.push(gc));
                assert(parent.children@[i as int] == gc);
                assert(elem_of(gc).attributes@[0].0@ == key@);
                assert(elem_of(gc).attributes@[0].1@ == val@);
                assert(child_matches(gc, tag@, key@, val@));
                assert(forall|k: int|
                    0 <= k < i ==> parent.children@[k] == pre.children@[k]
                        && !child_matches(#[trigger] parent.children@[k], tag@, key@, val@));
                lemma_first_where_at(
                    parent.children@,
                    |c: Child| child_matches(c, tag@, key@, val@),
                    i as int,
                );
            }
            i
        },
    }
}

/// As [`find_or_create_child`], but the lookup and the fresh element go by
/// the tag alone and the fresh element has no attributes.
pub fn find_or_create_container(parent: &mut Node, tag: &String) -> (i: usize)
    ensures
        foc_tag_post(*old(parent), *final(parent), i as int, tag@),
{
    match find_child_by_tag(parent, tag) {
        Some(i) => i,
        None => {
            let i = parent.children.len();
            let fresh = Node { name: tag.clone(), attributes: Vec::new(), children: Vec::new() };
            let c = Child::Element(fresh);
            let ghost gc = c;
            let ghost pre = *parent;
            parent.children.push(c);
            proof {
                lemma_first_where_none(pre.children@, |c: Child| child_has_tag(c, tag@));
                assert(parent.children@ == pre.children@.push(gc));
                assert(parent.children@[i as int] == gc);
                assert(child_has_tag(gc, tag@));
                assert(forall|k: int|
                    0 <= k < i ==> parent.children@[k] == pre.children@[k] && !child_has_tag(
                        #[trigger] parent.children@[k],
                        tag@,
                    ));
                lemma_first_where_at(parent.children@, |c: Child| child_has_tag(c, tag@), i as int);
            }
            i
        },
    }
}

/// Append `child` as the last child of `parent`, with no lookup: every call
/// adds a new element, deliberately never deduplicated.
pub fn append_element(parent: &mut Node, child: Node)
    ensures
        final(parent).name == old(parent).name,
        final(parent).attributes == old(parent).attributes,
        final(parent).children@ == old(parent).children@.push(Child::Element(child)),
{
    parent.children.push(Child::Element(child));
}

/// Finding-or-creating a child is idempotent: a second call with the same
/// tag and identifying attribute finds the node the first call returned,
/// changes nothing, and creates no duplicate.
pub proof fn lemma_find_or_create_idempotent(
    pre: Node,
    mid: Node,
    post: Node,
    i: int,
    j: int,
    tag: Seq<char>,
    key: Seq<char>,
    val: Seq<char>,
)
    requires
        foc_post(pre, mid, i, tag, key, val),
        foc_post(mid, post, j, tag, key, val),
    ensures
        post == mid,
        j == i,
{
}

/// The container lookup is idempotent in the same way.
pub proof fn lemma_find_or_create_container_idempotent(
    pre: Node,
    mid: Node,
    post: Node,
    i: int,
    j: int,
    tag: Seq<char>,
)
    requires
        foc_tag_post(pre, mid, i, tag),
        foc_tag_post(mid, post, j, tag),
    ensures
        post == mid,
        j == i,
{
}

} // verus!
