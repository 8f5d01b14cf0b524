use vstd::prelude::*;
use crate::codec::segments;
use crate::contents::ContentModel;
use crate::error::UrbitAPIError;
use crate::graph::{Node, NodeView, node_views, lemma_node_view, utc_text, opt_view};
use crate::messaging::{AuthoredMessage, MessageView};
use crate::codec::views;
use crate::contents::ContentItem;

verus! {

/// A comment on a note or a link: the latest revision of the comment, as a
/// message.
pub type Comment = AuthoredMessage;

/// The last segment of a node's index.
pub open spec fn tail_of(n: NodeView) -> Seq<char> {
    segments(n.index).last()
}

/// Lexicographic order of texts, character by character.
pub open spec fn lex_lt(a: Seq<char>, b: Seq<char>) -> bool
    decreases a.len(),
{
    if a.len() == 0 {
        b.len() > 0
    } else if b.len() == 0 {
        false
    } else if a[0] != b[0] {
        a[0] < b[0]
    } else {
        lex_lt(a.drop_first(), b.drop_first())
    }
}

/// Position of the node with the greatest index tail, the first of equals.
pub open spec fn latest(cs: Seq<NodeView>) -> int
    decreases cs.len(),
{
    if cs.len() <= 1 {
        0
    } else {
        let p = latest(cs.drop_last());
        if lex_lt(tail_of(cs[p]), tail_of(cs.last())) {
            cs.len() - 1
        } else {
            p
        }
    }
}

/// Position of the first node whose index tail is `t`, or -1.
pub open spec fn first_tail(cs: Seq<NodeView>, t: Seq<char>) -> int
    decreases cs.len(),
{
    if cs.len() == 0 {
        -1
    } else if first_tail(cs.drop_last(), t) >= 0 {
        first_tail(cs.drop_last(), t)
    } else if tail_of(cs.last()) == t {
        cs.len() - 1
    } else {
        -1
    }
}

/// Position of the last node whose index is `idx`, or -1.
pub open spec fn last_index(cs: Seq<NodeView>, idx: Seq<char>) -> int
    decreases cs.len(),
{
    if cs.len() == 0 {
        -1
    } else if cs.last().index == idx {
        cs.len() - 1
    } else {
        last_index(cs.drop_last(), idx)
    }
}

/// The message that a node holds, `None` where its time cannot be written
/// as a date.
pub open spec fn message_of(n: NodeView) -> Option<MessageView> {
    match utc_text(n.time_sent as int / 1000) {
        Some(t) => Some(MessageView { author: n.author, contents: n.contents, time_sent: t, index: n.index }),
        None => None,
    }
}

/// The latest revision of each comment, in order; `None` where a comment has
/// no revision or a time cannot be written.
pub open spec fn comments_of(cs: Seq<NodeView>) -> Option<Seq<MessageView>>
    decreases cs.len(),
{
    if cs.len() == 0 {
        Some(Seq::empty())
    } else {
        let c = cs.last();
        match comments_of(cs.drop_last()) {
            Some(ms) => if c.children.len() == 0 {
                None
            } else {
                match message_of(c.children[latest(c.children)]) {
                    Some(m) => Some(ms.push(m)),
                    None => None,
                }
            },
            None => None,
        }
    }
}

/// The text of a text item.
pub open spec fn text_of(c: ContentModel) -> Option<Seq<char>> {
    match c {
        ContentModel::Text(t) => Some(t),
        _ => None,
    }
}

/// The text of a url item.
pub open spec fn url_of(c: ContentModel) -> Option<Seq<char>> {
    match c {
        ContentModel::Url(u) => Some(u),
        _ => None,
    }
}

/// Lexicographic order of texts.
pub fn lex_less(a: &str, b: &str) -> (r: bool)
    ensures
        r == lex_lt(a@, b@),
{
    let n = a.unicode_len();
    let m = b.unicode_len();
    let mut i: usize = 0;
    assert(a@.subrange(0, n as int) =~= a@);
    assert(b@.subrange(0, m as int) =~= b@);
    while i < n && i < m
        invariant
            n == a@.len(),
            m == b@.len(),
            i <= n,
            i <= m,
            lex_lt(a@, b@) == lex_lt(a@.subrange(i as int, n as int), b@.subrange(i as int, m as int)),
        decreases n - i,
    {
        let x = a.get_char(i);
        let y = b.get_char(i);
        let ghost sa = a@.subrange(i as int, n as int);
        let ghost sb = b@.subrange(i as int, m as int);
        assert(sa[0] == x && sb[0] == y);
        if x != y {
            return x < y;
        }
        assert(sa.drop_first() =~= a@.subrange(i as int + 1, n as int));
        assert(sb.drop_first() =~= b@.subrange(i as int + 1, m as int));
        i = i + 1;
    }
    let ghost sa = a@.subrange(i as int, n as int);
    let ghost sb = b@.subrange(i as int, m as int);
    if i == n {
        assert(sa.len() == 0);
        i < m
    } else {
        assert(sb.len() == 0);
        false
    }
}

/// Position of the first node whose index tail is `t`.
pub fn first_child_with_tail(cs: &Vec<Node>, t: &str) -> (r: Option<usize>)
    ensures
        match r {
            Some(i) => first_tail(node_views(cs@), t@) == i as int && (i as int) < cs@.len(),
            None => first_tail(node_views(cs@), t@) == -1,
        },
{
    let ghost vs = node_views(cs@);
    let mut i: usize = 0;
    assert(vs.subrange(0, 0) =~= Seq::<NodeView>::empty());
    while i < cs.len()
        invariant
            vs == node_views(cs@),
            i <= cs@.len(),
            first_tail(vs.subrange(0, i as int), t@) == -1,
        decreases cs@.len() - i,
    {
        let ghost next = vs.subrange(0, i as int + 1);
        assert(next.drop_last() =~= vs.subrange(0, i as int));
        proof {
            lemma_node_view(&cs@[i as int]);
        }
        let tail = cs[i].index_tail();
        if crate::text::str_eq(tail.as_str(), t) {
            proof {
                lemma_first_tail_extend(vs, t@, i as int + 1);
            }
            return Some(i);
        }
        i = i + 1;
    }
    assert(vs.subrange(0, i as int) =~= vs);
    None
}

proof fn lemma_first_tail_extend(vs: Seq<NodeView>, t: Seq<char>, k: int)
    requires
        0 < k <= vs.len(),
        first_tail(vs.subrange(0, k - 1), t) == -1,
        tail_of(vs[k - 1]) == t,
    ensures
        first_tail(vs, t) == k - 1,
{
    let next = vs.subrange(0, k);
    assert(next.drop_last() =~= vs.subrange(0, k - 1));
    assert(next.last() == vs[k - 1]);
    assert(first_tail(next, t) == k - 1);
    lemma_first_tail_prefix(vs, t, k);
}

proof fn lemma_first_tail_prefix(vs: Seq<NodeView>, t: Seq<char>, k: int)
    requires
        0 < k <= vs.len(),
        first_tail(vs.subrange(0, k), t) >= 0,
    ensures
        first_tail(vs, t) == first_tail(vs.subrange(0, k), t),
    decreases vs.len() - k,
{
    if k < vs.len() {
        let next = vs.subrange(0, k + 1);
        assert(next.drop_last() =~= vs.subrange(0, k));
        lemma_first_tail_prefix(vs, t, k + 1);
    } else {
        assert(vs.subrange(0, k) =~= vs);
    }
}

/// Position of the node with the greatest index tail, the first of equals.
pub fn latest_child(cs: &Vec<Node>) -> (r: usize)
    requires
        cs@.len() >= 1,
    ensures
        r as int == latest(node_views(cs@)),
        (r as int) < cs@.len(),
{
    let ghost vs = node_views(cs@);
    let mut best: usize = 0;
    let mut best_tail = cs[0].index_tail();
    proof {
        lemma_node_view(&cs@[0]);
    }
    let mut i: usize = 1;
    assert(vs.subrange(0, 1).len() == 1);
    while i < cs.len()
        invariant
            vs == node_views(cs@),
            1 <= i <= cs@.len(),
            (best as int) < i,
            best as int == latest(vs.subrange(0, i as int)),
            best_tail@ == tail_of(vs[best as int]),
        decreases cs@.len() - i,
    {
        let ghost next = vs.subrange(0, i as int + 1);
        assert(next.drop_last() =~= vs.subrange(0, i as int));
        assert(next.drop_last()[best as int] == vs[best as int]);
        proof {
            lemma_node_view(&cs@[i as int]);
        }
        let tail = cs[i].index_tail();
        if lex_less(best_tail.as_str(), tail.as_str()) {
            best = i;
            best_tail = tail;
        }
        i = i + 1;
    }
    assert(vs.subrange(0, i as int) =~= vs);
    best
}

/// Position of the last node whose index is `idx`.
pub fn last_child_with_index(cs: &Vec<Node>, idx: &str) -> (r: Option<usize>)
    ensures
        match r {
            Some(i) => last_index(node_views(cs@), idx@) == i as int && (i as int) < cs@.len(),
            None => last_index(node_views(cs@), idx@) == -1,
        },
{
    let ghost vs = node_views(cs@);
    let mut i: usize = cs.len();
    assert(vs.subrange(0, i as int) =~= vs);
    while i > 0
        invariant
            vs == node_views(cs@),
            i <= cs@.len(),
            last_index(vs, idx@) == last_index(vs.subrange(0, i as int), idx@),
        decreases i,
    {
        let ghost cur = vs.subrange(0, i as int);
        assert(cur.drop_last() =~= vs.subrange(0, i as int - 1));
        proof {
            lemma_node_view(&cs@[i as int - 1]);
        }
        if crate::text::str_eq(cs[i - 1].index.as_str(), idx) {
            return Some(i - 1);
        }
        i = i - 1;
    }
    assert(vs.subrange(0, 0) =~= Seq::<NodeView>::empty());
    None
}

/// The latest revision of each comment node, as messages.
pub fn comment_messages(cs: &Vec<Node>) -> (r: Option<Vec<Comment>>)
    ensures
        match r {
            Some(ms) => comments_of(node_views(cs@)) == Some(ms@.map_values(|m: AuthoredMessage| m@)),
            None => comments_of(node_views(cs@)) is None,
        },
{
    let ghost vs = node_views(cs@);
    let mut out: Vec<Comment> = Vec::new();
    let mut i: usize = 0;
    assert(vs.subrange(0, 0) =~= Seq::<NodeView>::empty());
    assert(out@.map_values(|m: AuthoredMessage| m@) =~= Seq::<MessageView>::empty());
    while i < cs.len()
        invariant
            vs == node_views(cs@),
            i <= cs@.len(),
            comments_of(vs.subrange(0, i as int)) == Some(out@.map_values(|m: AuthoredMessage| m@)),
        decreases cs@.len() - i,
    {
        let ghost next = vs.subrange(0, i as int + 1);
        assert(next.drop_last() =~= vs.subrange(0, i as int));
        let c = &cs[i];
        proof {
            lemma_node_view(c);
        }
        if c.children.len() == 0 {
            proof {
                lemma_comments_prefix_none(vs, i as int + 1);
            }
            return None;
        }
        let k = latest_child(&c.children);
        let rev = &c.children[k];
        proof {
            lemma_node_view(rev);
        }
        match AuthoredMessage::from_node(rev) {
            Some(m) => {
                let ghost before = out@;
                let ghost mv = m@;
                out.push(m);
                assert(out@.map_values(|m: AuthoredMessage| m@) =~= before.map_values(
                    |m: AuthoredMessage| m@,
                ).push(mv));
            },
            None => {
                proof {
                    lemma_comments_prefix_none(vs, i as int + 1);
                }
                return None;
            },
        }
        i = i + 1;
    }
    assert(vs.subrange(0, i as int) =~= vs);
    Some(out)
}

proof fn lemma_comments_prefix_none(vs: Seq<NodeView>, k: int)
    requires
        0 < k <= vs.len(),
        comments_of(vs.subrange(0, k)) is None,
    ensures
        comments_of(vs) is None,
    decreases vs.len() - k,
{
    if k < vs.len() {
        let next = vs.subrange(0, k + 1);
        assert(next.drop_last() =~= vs.subrange(0, k));
        lemma_comments_prefix_none(vs, k + 1);
    } else {
        assert(vs.subrange(0, k) =~= vs);
    }
}

/// A note of a notebook, at one revision.
#[derive(Debug)]
pub struct Note {
    pub title: String,
    pub author: String,
    pub time_sent: String,
    pub contents: String,
    pub comments: Vec<Comment>,
    pub index: String,
}

/// The mathematical value of a `Note`.
pub struct NoteView {
    pub title: Seq<char>,
    pub author: Seq<char>,
    pub time_sent: Seq<char>,
    pub contents: Seq<char>,
    pub comments: Seq<MessageView>,
    pub index: Seq<char>,
}

impl View for Note {
    type V = NoteView;

    open spec fn view(&self) -> NoteView {
        NoteView {
            title: self.title@,
            author: self.author@,
            time_sent: self.time_sent@,
            contents: self.contents@,
            comments: self.comments@.map_values(|m: AuthoredMessage| m@),
            index: self.index@,
        }
    }
}

/// The revision of a note's content node that is read: the last one with
/// index `idx` when a revision is asked for (the first where none has it),
/// else the latest.
pub open spec fn revision_pos(content: NodeView, revision: Option<Seq<char>>) -> int {
    match revision {
        Some(idx) => if last_index(content.children, idx) >= 0 {
            last_index(content.children, idx)
        } else {
            0
        },
        None => latest(content.children),
    }
}

/// The note that a note's root node describes: its child `1` holds the
/// revisions, whose first two items are the title and the body; its child
/// `2` holds the comments.
pub open spec fn note_of(node: NodeView, revision: Option<Seq<char>>) -> Option<NoteView> {
    let ci = first_tail(node.children, seq!['2']);
    let ti = first_tail(node.children, seq!['1']);
    if ci < 0 || ti < 0 {
        None
    } else {
        let content = node.children[ti];
        if content.children.len() == 0 {
            None
        } else {
            let rev = content.children[revision_pos(content, revision)];
            match (comments_of(node.children[ci].children), message_of(rev)) {
                (Some(cm), Some(m)) => if rev.contents.len() >= 2 && text_of(rev.contents[0]) is Some
                    && text_of(rev.contents[1]) is Some {
                    Some(
                        NoteView {
                            title: text_of(rev.contents[0])->0,
                            author: rev.author,
                            time_sent: m.time_sent,
                            contents: text_of(rev.contents[1])->0,
                            comments: cm,
                            index: rev.index,
                        },
                    )
                } else {
                    None
                },
                _ => None,
            }
        }
    }
}

/// The lines of a text cut at each `\n` escape (a backslash and an `n`).
pub open spec fn md_lines(s: Seq<char>) -> Seq<Seq<char>>
    decreases s.len(),
{
    if s.len() == 0 {
        seq![Seq::empty()]
    } else if s.len() >= 2 && s[s.len() - 2] == '\\' && s[s.len() - 1] == 'n' {
        md_lines(s.subrange(0, s.len() - 2)).push(Seq::empty())
    } else {
        let r = md_lines(s.drop_last());
        r.update(r.len() - 1, r.last().push(s.last()))
    }
}

proof fn lemma_push_injective(a: Seq<char>, b: Seq<char>, x: char)
    requires
        a.push(x) == b.push(x),
    ensures
        a == b,
{
    assert(a.push(x).len() == a.len() + 1);
    assert(b.push(x).len() == b.len() + 1);
    assert(a.len() == b.len());
    assert forall|j: int| 0 <= j < a.len() implies a[j] == b[j] by {
        assert(a.push(x)[j] == a[j]);
        assert(b.push(x)[j] == b[j]);
        assert(a.push(x)[j] == b.push(x)[j]);
    }
    assert(a =~= b);
}

proof fn lemma_md_lines_len(s: Seq<char>)
    ensures
        md_lines(s).len() >= 1,
    decreases s.len(),
{
    if s.len() >= 2 && s[s.len() - 2] == '\\' && s[s.len() - 1] == 'n' {
        lemma_md_lines_len(s.subrange(0, s.len() - 2));
    } else if s.len() > 0 {
        lemma_md_lines_len(s.drop_last());
    }
}

/// Copies a list of messages.
fn copy_messages(v: &Vec<Comment>) -> (r: Vec<Comment>)
    ensures
        r@.map_values(|m: AuthoredMessage| m@) == v@.map_values(|m: AuthoredMessage| m@),
{
    let mut out: Vec<Comment> = Vec::new();
    let mut i: usize = 0;
    while i < v.len()
        invariant
            i <= v@.len(),
            out@.len() == i,
            forall|j: int| 0 <= j < i ==> (#[trigger] out@[j])@ == v@[j]@,
        decreases v@.len() - i,
    {
        let m = &v[i];
        out.push(AuthoredMessage::new(m.author.as_str(), &m.contents, m.time_sent.as_str(), m.index.as_str()));
        i = i + 1;
    }
    assert(out@.map_values(|m: AuthoredMessage| m@) =~= v@.map_values(|m: AuthoredMessage| m@));
    out
}

impl Note {
    pub fn new(
        title: &str,
        author: &str,
        time_sent: &str,
        contents: &str,
        comments: &Vec<Comment>,
        index: &str,
    ) -> (r: Note)
        ensures
            r@ == (NoteView {
                title: title@,
                author: author@,
                time_sent: time_sent@,
                contents: contents@,
                comments: comments@.map_values(|m: AuthoredMessage| m@),
                index: index@,
            }),
    {
        Note {
            title: title.to_owned(),
            author: author.to_owned(),
            time_sent: time_sent.to_owned(),
            contents: contents.to_owned(),
            comments: copy_messages(comments),
            index: index.to_owned(),
        }
    }

    /// Reads a note from its root node, at the given revision index or at
    /// the latest revision.
    pub fn from_node(node: &Node, revision: Option<String>) -> (r: Result<Note, UrbitAPIError>)
        ensures
            match r {
                Ok(n) => note_of(node@, opt_view(revision)) == Some(n@),
                Err(e) => note_of(node@, opt_view(revision)) is None && e is InvalidNoteGraphNode,
            },
    {
        let ghost rv = opt_view(revision);
        proof {
            lemma_node_view(node);
        }
        let ci = first_child_with_tail(&node.children, "2");
        let ti = first_child_with_tail(&node.children, "1");
        proof {
            reveal_strlit("1");
            reveal_strlit("2");
            assert("1"@ =~= seq!['1']);
            assert("2"@ =~= seq!['2']);
        }
        let (ci, ti) = match (ci, ti) {
            (Some(ci), Some(ti)) => (ci, ti),
            _ => {
                return Err(UrbitAPIError::InvalidNoteGraphNode(node.to_json().dump()));
            },
        };
        let content = &node.children[ti];
        let comments_node = &node.children[ci];
        proof {
            lemma_node_view(content);
            lemma_node_view(comments_node);
        }
        if content.children.len() == 0 {
            return Err(UrbitAPIError::InvalidNoteGraphNode(node.to_json().dump()));
        }
        let ri = match &revision {
            Some(idx) => match last_child_with_index(&content.children, idx.as_str()) {
                Some(i) => i,
                None => 0,
            },
            None => latest_child(&content.children),
        };
        assert(ri as int == revision_pos(content@, rv));
        let rev = &content.children[ri];
        proof {
            lemma_node_view(rev);
        }
        let comments = match comment_messages(&comments_node.children) {
            Some(c) => c,
            None => {
                return Err(UrbitAPIError::InvalidNoteGraphNode(node.to_json().dump()));
            },
        };
        let time_sent = match rev.time_sent_formatted() {
            Some(t) => t,
            None => {
                return Err(UrbitAPIError::InvalidNoteGraphNode(node.to_json().dump()));
            },
        };
        if rev.contents.content_list.len() < 2 {
            return Err(UrbitAPIError::InvalidNoteGraphNode(node.to_json().dump()));
        }
        assert(rev@.contents[0] == rev.contents.content_list@[0]@);
        assert(rev@.contents[1] == rev.contents.content_list@[1]@);
        let title = match &rev.contents.content_list[0] {
            ContentItem::Text(t) => t,
            _ => {
                return Err(UrbitAPIError::InvalidNoteGraphNode(node.to_json().dump()));
            },
        };
        let body = match &rev.contents.content_list[1] {
            ContentItem::Text(t) => t,
            _ => {
                return Err(UrbitAPIError::InvalidNoteGraphNode(node.to_json().dump()));
            },
        };
        Ok(Note::new(title.as_str(), rev.author.as_str(), time_sent.as_str(), body.as_str(), &comments, rev.index.as_str()))
    }

    /// The body cut into lines at each `\n` escape.
    pub fn content_as_markdown(&self) -> (r: Vec<String>)
        ensures
            views(r@) == md_lines(self.contents@),
    {
        let s = self.contents.as_str();
        let n = s.unicode_len();
        let mut lines: Vec<String> = Vec::new();
        let mut cur = String::new();
        let mut pending = false;
        let mut i: usize = 0;
        assert(s@.subrange(0, 0) =~= Seq::<char>::empty());
        assert(views(lines@).push(cur@) =~= md_lines(s@.subrange(0, 0)));
        while i < n
            invariant
                n == s@.len(),
                s@ == self.contents@,
                i <= n,
                pending == (i > 0 && s@[i - 1] == '\\'),
                views(lines@).push(if pending {
                    cur@.push('\\')
                } else {
                    cur@
                }) == md_lines(s@.subrange(0, i as int)),
            decreases n - i,
        {
            let c = s.get_char(i);
            let ghost prev = s@.subrange(0, i as int);
            let ghost next = s@.subrange(0, i as int + 1);
            assert(next.drop_last() =~= prev);
            assert(next.last() == c);
            proof {
                lemma_md_lines_len(prev);
            }
            if pending && c == 'n' {
                assert(next.subrange(0, next.len() - 2) =~= s@.subrange(0, i as int - 1));
                proof {
                    lemma_md_lines_len(s@.subrange(0, i as int - 1));
                    let pp = s@.subrange(0, i as int - 1);
                    assert(prev.drop_last() =~= pp);
                    assert(!(prev.len() >= 2 && prev[prev.len() - 2] == '\\' && prev[prev.len() - 1] == 'n'));
                    assert(md_lines(prev) == md_lines(pp).update(
                        md_lines(pp).len() - 1,
                        md_lines(pp).last().push('\\'),
                    ));
                    let ml = md_lines(pp);
                    let lhs = views(lines@).push(cur@.push('\\'));
                    let rhs = ml.update(ml.len() - 1, ml.last().push('\\'));
                    assert(lhs == rhs);
                    assert(lhs.len() == rhs.len());
                    assert(lhs[lhs.len() - 1] == rhs[rhs.len() - 1]);
                    assert(cur@.push('\\') == ml.last().push('\\'));
                    lemma_push_injective(cur@, ml.last(), '\\');
                    assert forall|j: int| 0 <= j < views(lines@).len() implies views(lines@)[j] == ml[j] by {
                        assert(lhs[j] == rhs[j]);
                    }
                    assert(views(lines@).push(cur@) =~= md_lines(pp));
                }
                lines.push(cur);
                cur = String::new();
                pending = false;
                assert(views(lines@).push(cur@) =~= md_lines(next));
            } else {
                if pending {
                    cur.push('\\');
                }
                let ghost before = cur@;
                if c == '\\' {
                    pending = true;
                } else {
                    pending = false;
                    cur.push(c);
                }
                proof {
                    if c == '\\' {
                        assert(views(lines@).push(cur@.push('\\')) =~= md_lines(prev).update(
                            md_lines(prev).len() - 1,
                            md_lines(prev).last().push(c),
                        ));
                    } else {
                        assert(views(lines@).push(cur@) =~= md_lines(prev).update(
                            md_lines(prev).len() - 1,
                            md_lines(prev).last().push(c),
                        ));
                    }
                }
            }
            i = i + 1;
        }
        if pending {
            cur.push('\\');
        }
        lines.push(cur);
        assert(s@.subrange(0, i as int) =~= s@);
        lines
    }
}

} // verus!
