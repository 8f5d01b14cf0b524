use vstd::prelude::*;
use crate::contents::ContentItem;
use crate::error::UrbitAPIError;
use crate::graph::{Node, NodeView, lemma_node_view};
use crate::messaging::{AuthoredMessage, MessageView};
use crate::note::{Comment, comments_of, first_tail, message_of, text_of, url_of, comment_messages, first_child_with_tail};

verus! {

/// A link of a collection.
#[derive(Debug)]
pub struct Link {
    pub title: String,
    pub author: String,
    pub time_sent: String,
    pub url: String,
    pub comments: Vec<Comment>,
    pub index: String,
}

/// The mathematical value of a `Link`.
pub struct LinkView {
    pub title: Seq<char>,
    pub author: Seq<char>,
    pub time_sent: Seq<char>,
    pub url: Seq<char>,
    pub comments: Seq<MessageView>,
    pub index: Seq<char>,
}

impl View for Link {
    type V = LinkView;

    open spec fn view(&self) -> LinkView {
        LinkView {
            title: self.title@,
            author: self.author@,
            time_sent: self.time_sent@,
            url: self.url@,
            comments: self.comments@.map_values(|m: AuthoredMessage| m@),
            index: self.index@,
        }
    }
}

/// The link that a link node describes: its first two items are the title
/// and the url; its child `2` holds the comments.
pub open spec fn link_of(node: NodeView) -> Option<LinkView> {
    let ci = first_tail(node.children, seq!['2']);
    if ci < 0 {
        None
    } else {
        match (comments_of(node.children[ci].children), message_of(node)) {
            (Some(cm), Some(m)) => if node.contents.len() >= 2 && text_of(node.contents[0]) is Some
                && url_of(node.contents[1]) is Some {
                Some(
                    LinkView {
                        title: text_of(node.contents[0])->0,
                        author: node.author,
                        time_sent: m.time_sent,
                        url: url_of(node.contents[1])->0,
                        comments: cm,
                        index: node.index,
                    },
                )
            } else {
                None
            },
            _ => None,
        }
    }
}

impl Link {
    pub fn new(
        title: &str,
        author: &str,
        time_sent: &str,
        url: &str,
        comments: Vec<Comment>,
        index: &str,
    ) -> (r: Link)
        ensures
            r.title@ == title@,
            r.author@ == author@,
            r.time_sent@ == time_sent@,
            r.url@ == url@,
            r.comments == comments,
            r.index@ == index@,
    {
        Link {
            title: title.to_owned(),
            author: author.to_owned(),
            time_sent: time_sent.to_owned(),
            url: url.to_owned(),
            comments,
            index: index.to_owned(),
        }
    }

    /// Reads a link from its node.
    pub fn from_node(node: &Node) -> (r: Result<Link, UrbitAPIError>)
        ensures
            match r {
                Ok(l) => link_of(node@) == Some(l@),
                Err(e) => link_of(node@) is None && e is InvalidLinkGraphNode,
            },
    {
        proof {
            lemma_node_view(node);
            reveal_strlit("2");
            assert("2"@ =~= seq!['2']);
        }
        let ci = match first_child_with_tail(&node.children, "2") {
            Some(ci) => ci,
            None => {
                return Err(UrbitAPIError::InvalidLinkGraphNode(node.to_json().dump()));
            },
        };
        let comments_node = &node.children[ci];
        proof {
            lemma_node_view(comments_node);
        }
        let comments = match comment_messages(&comments_node.children) {
            Some(c) => c,
            None => {
                return Err(UrbitAPIError::InvalidLinkGraphNode(node.to_json().dump()));
            },
        };
        let time_sent = match node.time_sent_formatted() {
            Some(t) => t,
            None => {
                return Err(UrbitAPIError::InvalidLinkGraphNode(node.to_json().dump()));
            },
        };
        if node.contents.content_list.len() < 2 {
            return Err(UrbitAPIError::InvalidLinkGraphNode(node.to_json().dump()));
        }
        assert(node@.contents[0] == node.contents.content_list@[0]@);
        assert(node@.contents[1] == node.contents.content_list@[1]@);
        let title = match &node.contents.content_list[0] {
            ContentItem::Text(t) => t,
            _ => {
                return Err(UrbitAPIError::InvalidLinkGraphNode(node.to_json().dump()));
            },
        };
        let url = match &node.contents.content_list[1] {
            ContentItem::Url(u) => u,
            _ => {
                return Err(UrbitAPIError::InvalidLinkGraphNode(node.to_json().dump()));
            },
        };
        Ok(Link::new(title.as_str(), node.author.as_str(), time_sent.as_str(), url.as_str(), comments, node.index.as_str()))
    }
}

} // verus!
