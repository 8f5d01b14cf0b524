use vstd::prelude::*;
use crate::codec::{segments, split_index, views};
use crate::error::UrbitAPIError;
use crate::text::{decimal, push_decimal, parse_u64, u64_of_text};

verus! {

// A notebook index has these segments: 0 is empty (the index starts with
// `/`); 1 is the note's root node; 2 is `1` for the note's content, `2` for
// its comments; 3 is a note revision or a comment's root node; 4 is a
// comment revision.

/// Helper for reading and making the indices of notebook nodes.
#[derive(Debug, Clone)]
pub struct NotebookIndex {
    pub index: String,
    pub index_split: Vec<String>,
}

pub open spec fn one() -> Seq<char> {
    seq!['1']
}

pub open spec fn two() -> Seq<char> {
    seq!['2']
}

/// `"/" + a + "/" + b + ...`: an index made of the given segments.
pub open spec fn slash_join(p: Seq<Seq<char>>) -> Seq<char>
    decreases p.len(),
{
    if p.len() == 0 {
        Seq::empty()
    } else {
        slash_join(p.drop_last()) + seq!['/'] + p.last()
    }
}

fn append_segment(out: &mut String, seg: &str)
    ensures
        final(out)@ == old(out)@ + seq!['/'] + seg@,
{
    out.push('/');
    out.append(seg);
}

fn append_number(out: &mut String, n: u64)
    ensures
        final(out)@ == old(out)@ + seq!['/'] + decimal(n as nat),
{
    out.push('/');
    push_decimal(out, n as u128);
}

impl NotebookIndex {
    /// The segments of the index.
    pub open spec fn segs(&self) -> Seq<Seq<char>> {
        views(self.index_split@)
    }

    /// The split is the index's own.
    pub open spec fn wf(&self) -> bool {
        self.segs() == segments(self.index@)
    }

    /// The helper for `idx`.
    pub fn new(idx: &str) -> (r: NotebookIndex)
        ensures
            r.wf(),
            r.index@ == idx@,
    {
        NotebookIndex { index: idx.to_owned(), index_split: split_index(idx) }
    }

    fn seg_is(&self, i: usize, c: char) -> (r: bool)
        requires
            i < self.index_split@.len(),
        ensures
            r == (self.segs()[i as int] == seq![c]),
    {
        let s = self.index_split[i].as_str();
        let r = s.unicode_len() == 1 && s.get_char(0) == c;
        proof {
            if r {
                assert(s@ =~= seq![c]);
            }
        }
        r
    }

    fn starts_with_slash(&self) -> (r: bool)
        requires
            self.index_split@.len() >= 1,
        ensures
            r == (self.segs()[0].len() == 0),
    {
        self.index_split[0].as_str().unicode_len() == 0
    }

    /// Whether this is the index of some notebook node, note or comment.
    pub fn is_valid(&self) -> (r: bool)
        ensures
            r == (self.segs().len() >= 2 && self.segs()[0].len() == 0),
    {
        self.index_split.len() >= 2 && self.starts_with_slash()
    }

    /// Whether this is the index of a note's root node.
    pub fn is_note_root(&self) -> (r: bool)
        ensures
            r == (self.segs().len() == 2 && self.segs()[0].len() == 0),
    {
        self.index_split.len() == 2 && self.starts_with_slash()
    }

    /// Whether this is the index of a revision of a note.
    pub fn is_note_revision(&self) -> (r: bool)
        ensures
            r == (self.segs().len() == 4 && self.segs()[0].len() == 0 && self.segs()[2] == one()),
    {
        self.index_split.len() == 4 && self.starts_with_slash() && self.seg_is(2, '1')
    }

    /// Whether this is the index of a comment node of any kind.
    pub fn is_valid_comment_index(&self) -> (r: bool)
        ensures
            r == (self.segs().len() >= 4 && self.segs()[0].len() == 0 && self.segs()[2] == two()),
    {
        self.index_split.len() >= 4 && self.starts_with_slash() && self.seg_is(2, '2')
    }

    /// Whether this is the index of a comment's root node.
    pub fn is_comment_root(&self) -> (r: bool)
        ensures
            r == (self.segs().len() == 4 && self.segs()[0].len() == 0 && self.segs()[2] == two()),
    {
        self.index_split.len() == 4 && self.starts_with_slash() && self.seg_is(2, '2')
    }

    /// Whether this is the index of a revision of a comment.
    pub fn is_comment_revision(&self) -> (r: bool)
        ensures
            r == (self.segs().len() == 5 && self.segs()[0].len() == 0 && self.segs()[2] == two()),
    {
        self.index_split.len() == 5 && self.starts_with_slash() && self.seg_is(2, '2')
    }

    /// The index of the note's root node: `/<note>`.
    pub fn note_root_index(&self) -> (r: String)
        requires
            self.index_split@.len() >= 2,
        ensures
            r@ == slash_join(seq![self.segs()[1]]),
    {
        let mut s = String::new();
        append_segment(&mut s, self.index_split[1].as_str());
        proof {
            reveal_with_fuel(slash_join, 2);
            assert(seq![self.segs()[1]].drop_last() =~= Seq::<Seq<char>>::empty());
        }
        s
    }

    /// The index of the note's content node, whose children are the note's
    /// revisions: `/<note>/1`.
    pub fn note_content_node_index(&self) -> (r: String)
        requires
            self.index_split@.len() >= 2,
        ensures
            r@ == slash_join(seq![self.segs()[1], one()]),
    {
        let mut s = String::new();
        append_segment(&mut s, self.index_split[1].as_str());
        append_segment(&mut s, "1");
        proof {
            reveal_strlit("1");
            reveal_with_fuel(slash_join, 3);
            let p = seq![self.segs()[1], one()];
            assert(p.drop_last() =~= seq![self.segs()[1]]);
            assert(p.drop_last().drop_last() =~= Seq::<Seq<char>>::empty());
        }
        s
    }

    /// The index of the note's comments node, whose children are the
    /// comments: `/<note>/2`.
    pub fn note_comments_node_index(&self) -> (r: String)
        requires
            self.index_split@.len() >= 2,
        ensures
            r@ == slash_join(seq![self.segs()[1], two()]),
    {
        let mut s = String::new();
        append_segment(&mut s, self.index_split[1].as_str());
        append_segment(&mut s, "2");
        proof {
            reveal_strlit("2");
            reveal_with_fuel(slash_join, 3);
            let p = seq![self.segs()[1], two()];
            assert(p.drop_last() =~= seq![self.segs()[1]]);
            assert(p.drop_last().drop_last() =~= Seq::<Seq<char>>::empty());
        }
        s
    }

    /// The index of the comment's root node, whose children are its
    /// revisions: `/<note>/2/<comment>`; an error unless this is a comment index.
    pub fn comment_root_index(&self) -> (r: Result<String, UrbitAPIError>)
        ensures
            (self.segs().len() >= 4 && self.segs()[0].len() == 0 && self.segs()[2] == two()) ==> r
                is Ok && r->Ok_0@ == slash_join(seq![self.segs()[1], two(), self.segs()[3]]),
            !(self.segs().len() >= 4 && self.segs()[0].len() == 0 && self.segs()[2] == two()) ==> r
                == Err::<String, UrbitAPIError>(
                UrbitAPIError::InvalidCommentGraphNodeIndex(self.index),
            ),
    {
        if self.is_valid_comment_index() {
            let mut s = String::new();
            append_segment(&mut s, self.index_split[1].as_str());
            append_segment(&mut s, "2");
            append_segment(&mut s, self.index_split[3].as_str());
            proof {
                reveal_strlit("2");
                reveal_with_fuel(slash_join, 4);
                let p = seq![self.segs()[1], two(), self.segs()[3]];
                assert(p.drop_last() =~= seq![self.segs()[1], two()]);
                assert(p.drop_last().drop_last() =~= seq![self.segs()[1]]);
                assert(p.drop_last().drop_last().drop_last() =~= Seq::<Seq<char>>::empty());
            }
            Ok(s)
        } else {
            Err(UrbitAPIError::InvalidCommentGraphNodeIndex(self.index.clone()))
        }
    }

    /// A new comment root index under this note, named by the `@da` date
    /// `da_time`: `/<note>/2/<da_time>`.
    pub fn new_comment_root_index(&self, da_time: u128) -> (r: String)
        requires
            self.index_split@.len() >= 2,
        ensures
            r@ == slash_join(seq![self.segs()[1], two(), decimal(da_time as nat)]),
    {
        let mut s = String::new();
        append_segment(&mut s, self.index_split[1].as_str());
        append_segment(&mut s, "2");
        s.push('/');
        push_decimal(&mut s, da_time);
        proof {
            reveal_strlit("2");
            reveal_with_fuel(slash_join, 4);
            let p = seq![self.segs()[1], two(), decimal(da_time as nat)];
            assert(p.drop_last() =~= seq![self.segs()[1], two()]);
            assert(p.drop_last().drop_last() =~= seq![self.segs()[1]]);
            assert(p.drop_last().drop_last().drop_last() =~= Seq::<Seq<char>>::empty());
        }
        s
    }

    /// The last segment of the index.
    pub fn index_tail(&self) -> (r: String)
        requires
            self.index_split@.len() >= 1,
        ensures
            r@ == self.segs().last(),
    {
        self.index_split[self.index_split.len() - 1].clone()
    }

    /// The revision number of a note or comment revision index.
    pub fn revision(&self) -> (r: Result<u64, UrbitAPIError>)
        ensures
            ({
                let p = self.segs();
                let note_rev = p.len() == 4 && p[0].len() == 0 && p[2] == one();
                let comment_rev = p.len() == 5 && p[0].len() == 0 && p[2] == two();
                let n = if note_rev {
                    u64_of_text(p[3])
                } else if comment_rev {
                    u64_of_text(p[4])
                } else {
                    None
                };
                &&& n is Some ==> r == Ok::<u64, UrbitAPIError>(n->0)
                &&& n is None ==> r == Err::<u64, UrbitAPIError>(
                    UrbitAPIError::InvalidNoteGraphNodeIndex(self.index),
                )
            }),
    {
        if self.is_note_revision() {
            if let Some(r) = parse_u64(self.index_split[3].as_str()) {
                return Ok(r);
            }
        } else if self.is_comment_revision() {
            if let Some(r) = parse_u64(self.index_split[4].as_str()) {
                return Ok(r);
            }
        }
        Err(UrbitAPIError::InvalidNoteGraphNodeIndex(self.index.clone()))
    }

    /// The index of the revision after this one: `/<note>/1/<n+1>` for a note
    /// revision, `/<note>/2/<comment>/<n+1>` for a comment revision; an error
    /// for any other index, or where the next number does not fit in 64 bits.
    pub fn next_revision_index(&self) -> (r: Result<String, UrbitAPIError>)
        ensures
            ({
                let p = self.segs();
                let note_rev = p.len() == 4 && p[0].len() == 0 && p[2] == one();
                let comment_rev = p.len() == 5 && p[0].len() == 0 && p[2] == two();
                let n = if note_rev {
                    u64_of_text(p[3])
                } else if comment_rev {
                    u64_of_text(p[4])
                } else {
                    None
                };
                &&& (n is Some && n->0 < u64::MAX && comment_rev) ==> r is Ok && r->Ok_0@
                    == slash_join(seq![p[1], two(), p[3], decimal((n->0 + 1) as nat)])
                &&& (n is Some && n->0 < u64::MAX && note_rev) ==> r is Ok && r->Ok_0@
                    == slash_join(seq![p[1], one(), decimal((n->0 + 1) as nat)])
                &&& (n is None || n->0 == u64::MAX) ==> r == Err::<String, UrbitAPIError>(
                    UrbitAPIError::InvalidNoteGraphNodeIndex(self.index),
                )
            }),
    {
        let rev = match self.revision() {
            Ok(rev) => rev,
            Err(e) => {
                return Err(e);
            },
        };
        if rev == u64::MAX {
            return Err(UrbitAPIError::InvalidNoteGraphNodeIndex(self.index.clone()));
        }
        let newrev = rev + 1;
        let mut s = String::new();
        if self.index_split.len() == 5 {
            append_segment(&mut s, self.index_split[1].as_str());
            append_segment(&mut s, "2");
            append_segment(&mut s, self.index_split[3].as_str());
            append_number(&mut s, newrev);
            proof {
                reveal_strlit("2");
                reveal_with_fuel(slash_join, 5);
                let p = seq![self.segs()[1], two(), self.segs()[3], decimal(newrev as nat)];
                assert(p.drop_last() =~= seq![self.segs()[1], two(), self.segs()[3]]);
                assert(p.drop_last().drop_last() =~= seq![self.segs()[1], two()]);
                assert(p.drop_last().drop_last().drop_last() =~= seq![self.segs()[1]]);
                assert(p.drop_last().drop_last().drop_last().drop_last() =~= Seq::<Seq<char>>::empty());
            }
        } else {
            append_segment(&mut s, self.index_split[1].as_str());
            append_segment(&mut s, "1");
            append_number(&mut s, newrev);
            proof {
                reveal_strlit("1");
                reveal_with_fuel(slash_join, 4);
                let p = seq![self.segs()[1], one(), decimal(newrev as nat)];
                assert(p.drop_last() =~= seq![self.segs()[1], one()]);
                assert(p.drop_last().drop_last() =~= seq![self.segs()[1]]);
                assert(p.drop_last().drop_last().drop_last() =~= Seq::<Seq<char>>::empty());
            }
        }
        Ok(s)
    }

    /// The index of revision `revision` of the note: `/<note>/1/<revision>`.
    pub fn note_revision_index(&self, revision: u64) -> (r: String)
        requires
            self.index_split@.len() >= 2,
        ensures
            r@ == slash_join(seq![self.segs()[1], one(), decimal(revision as nat)]),
    {
        let mut s = String::new();
        append_segment(&mut s, self.index_split[1].as_str());
        append_segment(&mut s, "1");
        append_number(&mut s, revision);
        proof {
            reveal_strlit("1");
            reveal_with_fuel(slash_join, 4);
            let p = seq![self.segs()[1], one(), decimal(revision as nat)];
            assert(p.drop_last() =~= seq![self.segs()[1], one()]);
            assert(p.drop_last().drop_last() =~= seq![self.segs()[1]]);
            assert(p.drop_last().drop_last().drop_last() =~= Seq::<Seq<char>>::empty());
        }
        s
    }

    /// The index of revision `revision` of the comment:
    /// `/<note>/2/<comment>/<revision>`; an error unless this is a comment index.
    pub fn comment_revision_index(&self, revision: u64) -> (r: Result<String, UrbitAPIError>)
        ensures
            (self.segs().len() >= 4 && self.segs()[0].len() == 0 && self.segs()[2] == two()) ==> r
                is Ok && r->Ok_0@ == slash_join(
                seq![self.segs()[1], two(), self.segs()[3], decimal(revision as nat)],
            ),
            !(self.segs().len() >= 4 && self.segs()[0].len() == 0 && self.segs()[2] == two()) ==> r
                == Err::<String, UrbitAPIError>(
                UrbitAPIError::InvalidCommentGraphNodeIndex(self.index),
            ),
    {
        if self.is_valid_comment_index() {
            let mut s = String::new();
            append_segment(&mut s, self.index_split[1].as_str());
            append_segment(&mut s, "2");
            append_segment(&mut s, self.index_split[3].as_str());
            append_number(&mut s, revision);
            proof {
                reveal_strlit("2");
                reveal_with_fuel(slash_join, 5);
                let p = seq![self.segs()[1], two(), self.segs()[3], decimal(revision as nat)];
                assert(p.drop_last() =~= seq![self.segs()[1], two(), self.segs()[3]]);
                assert(p.drop_last().drop_last() =~= seq![self.segs()[1], two()]);
                assert(p.drop_last().drop_last().drop_last() =~= seq![self.segs()[1]]);
                assert(p.drop_last().drop_last().drop_last().drop_last() =~= Seq::<Seq<char>>::empty());
            }
            Ok(s)
        } else {
            Err(UrbitAPIError::InvalidCommentGraphNodeIndex(self.index.clone()))
        }
    }
}

} // verus!
