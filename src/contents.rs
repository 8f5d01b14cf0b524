use vstd::prelude::*;
use crate::json::{Json, JsonModel, json_views, json_text, dump_json, lemma_object_view, lemma_array_view};
use crate::text::{trim, trimmed, split_words, words};
use crate::codec::views;

verus! {

/// One item of a node's contents.
#[derive(Clone, Debug)]
pub enum ContentItem {
    Text(String),
    Url(String),
    /// A mention of another ship, by name without the leading `~`.
    Mention(String),
    Code { expression: String, output: String },
}

/// The mathematical value of a `ContentItem`.
pub enum ContentModel {
    Text(Seq<char>),
    Url(Seq<char>),
    Mention(Seq<char>),
    Code(Seq<char>, Seq<char>),
}

impl View for ContentItem {
    type V = ContentModel;

    open spec fn view(&self) -> ContentModel {
        match self {
            ContentItem::Text(t) => ContentModel::Text(t@),
            ContentItem::Url(u) => ContentModel::Url(u@),
            ContentItem::Mention(m) => ContentModel::Mention(m@),
            ContentItem::Code { expression, output } => ContentModel::Code(expression@, output@),
        }
    }
}

/// The ordered list of items that a node holds.
#[derive(Clone, Debug)]
pub struct NodeContents {
    pub content_list: Vec<ContentItem>,
}

impl View for NodeContents {
    type V = Seq<ContentModel>;

    open spec fn view(&self) -> Seq<ContentModel> {
        self.content_list@.map_values(|c: ContentItem| c@)
    }
}

/// An object of one member.
pub open spec fn single(key: Seq<char>, v: JsonModel) -> JsonModel {
    JsonModel::Object(seq![(key, v)])
}

/// The wire form of an item: `{"text": ..}`, `{"url": ..}`, `{"mention": ..}`
/// or `{"code": {"expression": .., "output": [[..]]}}`.
pub open spec fn content_wire(c: ContentModel) -> JsonModel {
    match c {
        ContentModel::Text(t) => single("text"@, JsonModel::Str(t)),
        ContentModel::Url(u) => single("url"@, JsonModel::Str(u)),
        ContentModel::Mention(m) => single("mention"@, JsonModel::Str(m)),
        ContentModel::Code(e, o) => single("code"@, code_wire(e, o)),
    }
}

/// The wire form of a code block: `{"expression": .., "output": [[..]]}`.
pub open spec fn code_wire(e: Seq<char>, o: Seq<char>) -> JsonModel {
    JsonModel::Object(
        seq![
            ("expression"@, JsonModel::Str(e)),
            ("output"@, JsonModel::Array(seq![JsonModel::Array(seq![JsonModel::Str(o)])])),
        ],
    )
}

/// A text without its first and last characters (both braces of an object's
/// JSON text); texts shorter than two characters are kept.
pub open spec fn unbraced(t: Seq<char>) -> Seq<char> {
    if t.len() >= 2 {
        t.subrange(1, t.len() - 1)
    } else {
        t
    }
}

/// The wire forms of a list of items.
pub open spec fn contents_wire(items: Seq<ContentModel>) -> Seq<JsonModel> {
    items.map_values(|c: ContentModel| content_wire(c))
}

/// The text of a string value.
pub open spec fn str_of(v: Option<JsonModel>) -> Option<Seq<char>> {
    match v {
        Some(JsonModel::Str(s)) => Some(s),
        _ => None,
    }
}

/// The text of a code output written `[[text]]`.
pub open spec fn output_of(v: Option<JsonModel>) -> Option<Seq<char>> {
    match v {
        Some(JsonModel::Array(a)) => if a.len() == 1 {
            match a[0] {
                JsonModel::Array(b) => if b.len() == 1 {
                    str_of(Some(b[0]))
                } else {
                    None
                },
                _ => None,
            }
        } else {
            None
        },
        _ => None,
    }
}

/// The item that a wire value describes: the first of `text`, `url`,
/// `mention` and `code` that it holds in the right shape.
pub open spec fn content_from_wire(j: JsonModel) -> Option<ContentModel> {
    if str_of(j.field("text"@)) is Some {
        Some(ContentModel::Text(str_of(j.field("text"@))->0))
    } else if str_of(j.field("url"@)) is Some {
        Some(ContentModel::Url(str_of(j.field("url"@))->0))
    } else if str_of(j.field("mention"@)) is Some {
        Some(ContentModel::Mention(str_of(j.field("mention"@))->0))
    } else if j.field("code"@) is Some && str_of(j.field("code"@)->0.field("expression"@)) is Some
        && output_of(j.field("code"@)->0.field("output"@)) is Some {
        Some(
            ContentModel::Code(
                str_of(j.field("code"@)->0.field("expression"@))->0,
                output_of(j.field("code"@)->0.field("output"@))->0,
            ),
        )
    } else {
        None
    }
}

/// The items that a list of wire values describes, `None` if one of them
/// describes none.
pub open spec fn contents_from_wire(items: Seq<JsonModel>) -> Option<Seq<ContentModel>>
    decreases items.len(),
{
    if items.len() == 0 {
        Some(Seq::empty())
    } else {
        match (contents_from_wire(items.drop_last()), content_from_wire(items.last())) {
            (Some(r), Some(c)) => Some(r.push(c)),
            _ => None,
        }
    }
}

/// The human-readable text of an item: a mention is written `~ship`, a code
/// block as the JSON text of its members.
pub open spec fn item_display(c: ContentModel) -> Seq<char> {
    match c {
        ContentModel::Text(t) => trimmed(t),
        ContentModel::Url(u) => trimmed(u),
        ContentModel::Mention(m) => trimmed(seq!['~'] + m),
        ContentModel::Code(e, o) => trimmed(unbraced(json_text(code_wire(e, o)))),
    }
}

/// The items' texts joined with single spaces.
pub open spec fn display_text(items: Seq<ContentModel>) -> Seq<char>
    decreases items.len(),
{
    if items.len() == 0 {
        Seq::empty()
    } else if items.len() == 1 {
        item_display(items[0])
    } else {
        display_text(items.drop_last()) + seq![' '] + item_display(items.last())
    }
}

/// The wire form of a code block.
fn code_json(expression: &String, output: &String) -> (r: Json)
    ensures
        r@ == code_wire(expression@, output@),
{
    let inner = Json::Array(vec![Json::Str(output.clone())]);
    proof {
        lemma_array_view(&inner);
        assert(inner@->Array_0 =~= seq![JsonModel::Str(output@)]);
    }
    let out = Json::Array(vec![inner]);
    proof {
        lemma_array_view(&out);
        assert(out@->Array_0 =~= seq![JsonModel::Array(seq![JsonModel::Str(output@)])]);
    }
    let code = Json::Object(
        vec![
            ("expression".to_owned(), Json::Str(expression.clone())),
            ("output".to_owned(), out),
        ],
    );
    proof {
        lemma_object_view(&code);
        assert(code@->Object_0 =~= code_wire(expression@, output@)->Object_0);
    }
    code
}

impl ContentItem {
    /// A copy of this item.
    pub fn copy(&self) -> (r: ContentItem)
        ensures
            r@ == self@,
    {
        match self {
            ContentItem::Text(t) => ContentItem::Text(t.clone()),
            ContentItem::Url(u) => ContentItem::Url(u.clone()),
            ContentItem::Mention(m) => ContentItem::Mention(m.clone()),
            ContentItem::Code { expression, output } => ContentItem::Code {
                expression: expression.clone(),
                output: output.clone(),
            },
        }
    }

    /// The wire form of this item.
    pub fn to_json(&self) -> (r: Json)
        ensures
            r@ == content_wire(self@),
    {
        match self {
            ContentItem::Text(t) => {
                let r = Json::Object(vec![("text".to_owned(), Json::Str(t.clone()))]);
                proof {
                    lemma_object_view(&r);
                    assert(r@->Object_0 =~= seq![("text"@, JsonModel::Str(t@))]);
                }
                r
            },
            ContentItem::Url(u) => {
                let r = Json::Object(vec![("url".to_owned(), Json::Str(u.clone()))]);
                proof {
                    lemma_object_view(&r);
                    assert(r@->Object_0 =~= seq![("url"@, JsonModel::Str(u@))]);
                }
                r
            },
            ContentItem::Mention(m) => {
                let r = Json::Object(vec![("mention".to_owned(), Json::Str(m.clone()))]);
                proof {
                    lemma_object_view(&r);
                    assert(r@->Object_0 =~= seq![("mention"@, JsonModel::Str(m@))]);
                }
                r
            },
            ContentItem::Code { expression, output } => {
                let code = code_json(expression, output);
                let r = Json::Object(vec![("code".to_owned(), code)]);
                proof {
                    lemma_object_view(&r);
                    assert(r@->Object_0 =~= content_wire(self@)->Object_0);
                }
                r
            },
        }
    }

    /// The item that a wire value describes.
    pub fn from_json(j: &Json) -> (r: Option<ContentItem>)
        ensures
            match r {
                Some(c) => content_from_wire(j@) == Some(c@),
                None => content_from_wire(j@) is None,
            },
    {
        if let Some(Json::Str(t)) = j.get("text") {
            return Some(ContentItem::Text(t.clone()));
        }
        if let Some(Json::Str(u)) = j.get("url") {
            return Some(ContentItem::Url(u.clone()));
        }
        if let Some(Json::Str(m)) = j.get("mention") {
            return Some(ContentItem::Mention(m.clone()));
        }
        if let Some(code) = j.get("code") {
            if let Some(Json::Str(e)) = code.get("expression") {
                if let Some(o) = code.get("output") {
                    if let Json::Array(a) = o {
                        proof {
                            lemma_array_view(o);
                        }
                        if a.len() == 1 {
                            if let Json::Array(b) = &a[0] {
                                proof {
                                    lemma_array_view(&a[0]);
                                }
                                if b.len() == 1 {
                                    if let Json::Str(s) = &b[0] {
                                        return Some(
                                            ContentItem::Code {
                                                expression: e.clone(),
                                                output: s.clone(),
                                            },
                                        );
                                    }
                                }
                            }
                        }
                    }
                }
            }
        }
        None
    }

    /// The human-readable text of this item.
    fn display(&self) -> (r: String)
        ensures
            r@ == item_display(self@),
    {
        match self {
            ContentItem::Text(t) => trim(t.as_str()),
            ContentItem::Url(u) => trim(u.as_str()),
            ContentItem::Mention(m) => {
                let mut s = String::new();
                s.push('~');
                s.append(m.as_str());
                assert(s@ =~= seq!['~'] + m@);
                trim(s.as_str())
            },
            ContentItem::Code { expression, output } => {
                let text = dump_json(&code_json(expression, output));
                let n = text.as_str().unicode_len();
                if n >= 2 {
                    trim(text.as_str().substring_char(1, n - 1))
                } else {
                    trim(text.as_str())
                }
            },
        }
    }
}

impl NodeContents {
    /// An empty list.
    pub fn new() -> (r: NodeContents)
        ensures
            r@ == Seq::<ContentModel>::empty(),
    {
        let r = NodeContents { content_list: Vec::new() };
        assert(r@ =~= Seq::<ContentModel>::empty());
        r
    }

    /// Whether the list holds no item: the mark of a structural node.
    pub fn is_empty(&self) -> (r: bool)
        ensures
            r == (self@.len() == 0),
    {
        self.content_list.len() == 0
    }

    /// A copy of this list.
    pub fn copy(&self) -> (r: NodeContents)
        ensures
            r@ == self@,
    {
        let mut v: Vec<ContentItem> = Vec::new();
        let mut i: usize = 0;
        while i < self.content_list.len()
            invariant
                i <= self.content_list@.len(),
                v@.len() == i,
                v@.map_values(|c: ContentItem| c@) == self@.subrange(0, i as int),
            decreases self.content_list@.len() - i,
        {
            let ghost before = v@;
            v.push(self.content_list[i].copy());
            assert(v@ == before.push(v@[i as int]));
            assert(self@[i as int] == self.content_list@[i as int]@);
            i = i + 1;
            assert(v@.map_values(|c: ContentItem| c@) =~= self@.subrange(0, i as int));
        }
        let r = NodeContents { content_list: v };
        assert(r@ =~= self@);
        r
    }

    fn add_to_contents(&self, item: ContentItem) -> (r: NodeContents)
        ensures
            r@ == self@.push(item@),
    {
        let mut r = self.copy();
        r.content_list.push(item);
        assert(r@ =~= self@.push(item@));
        r
    }

    /// This list with a text item appended.
    pub fn add_text(&self, text: &str) -> (r: NodeContents)
        ensures
            r@ == self@.push(ContentModel::Text(text@)),
    {
        self.add_to_contents(ContentItem::Text(text.to_owned()))
    }

    /// This list with a url item appended.
    pub fn add_url(&self, url: &str) -> (r: NodeContents)
        ensures
            r@ == self@.push(ContentModel::Url(url@)),
    {
        self.add_to_contents(ContentItem::Url(url.to_owned()))
    }

    /// This list with a mention of `referenced_ship` appended.
    pub fn add_mention(&self, referenced_ship: &str) -> (r: NodeContents)
        ensures
            r@ == self@.push(ContentModel::Mention(referenced_ship@)),
    {
        self.add_to_contents(ContentItem::Mention(referenced_ship.to_owned()))
    }

    /// This list with a code block and its output appended.
    pub fn add_code(&self, expression: &str, output: &str) -> (r: NodeContents)
        ensures
            r@ == self@.push(ContentModel::Code(expression@, output@)),
    {
        self.add_to_contents(
            ContentItem::Code { expression: expression.to_owned(), output: output.to_owned() },
        )
    }

    /// The list that a sequence of wire items describes; `None` where an item
    /// is none of the four kinds.
    pub fn from_json(json_contents: &Vec<Json>) -> (r: Option<NodeContents>)
        ensures
            match r {
                Some(c) => contents_from_wire(json_views(json_contents@)) == Some(c@),
                None => contents_from_wire(json_views(json_contents@)) is None,
            },
    {
        let ghost items = json_views(json_contents@);
        let mut v: Vec<ContentItem> = Vec::new();
        let mut i: usize = 0;
        assert(items.subrange(0, 0) =~= Seq::<JsonModel>::empty());
        assert(v@.map_values(|c: ContentItem| c@) =~= Seq::<ContentModel>::empty());
        while i < json_contents.len()
            invariant
                items == json_views(json_contents@),
                i <= json_contents@.len(),
                contents_from_wire(items.subrange(0, i as int)) == Some(
                    v@.map_values(|c: ContentItem| c@),
                ),
            decreases json_contents@.len() - i,
        {
            let ghost next = items.subrange(0, i as int + 1);
            assert(next.drop_last() =~= items.subrange(0, i as int));
            match ContentItem::from_json(&json_contents[i]) {
                Some(c) => {
                    v.push(c);
                },
                None => {
                    proof {
                        lemma_contents_prefix_none(items, i as int + 1);
                    }
                    return None;
                },
            }
            i = i + 1;
            assert(v@.map_values(|c: ContentItem| c@) =~= contents_from_wire(next)->0);
        }
        assert(items.subrange(0, i as int) =~= items);
        let r = NodeContents { content_list: v };
        Some(r)
    }

    /// The wire form of this list: an array of items.
    pub fn to_json(&self) -> (r: Json)
        ensures
            r@ == JsonModel::Array(contents_wire(self@)),
    {
        let mut v: Vec<Json> = Vec::new();
        let mut i: usize = 0;
        while i < self.content_list.len()
            invariant
                i <= self.content_list@.len(),
                v@.len() == i,
                json_views(v@) == contents_wire(self@.subrange(0, i as int)),
            decreases self.content_list@.len() - i,
        {
            let ghost before = v@;
            let j = self.content_list[i].to_json();
            assert(self@[i as int] == self.content_list@[i as int]@);
            assert(j@ == content_wire(self@[i as int]));
            v.push(j);
            assert(v@ == before.push(j));
            assert forall|k: int| 0 <= k <= i implies #[trigger] json_views(v@)[k]
                == contents_wire(self@.subrange(0, i as int + 1))[k] by {
                if k < i {
                    assert(json_views(before)[k] == contents_wire(self@.subrange(0, i as int))[k]);
                }
            }
            i = i + 1;
            assert(json_views(v@) =~= contents_wire(self@.subrange(0, i as int)));
        }
        let r = Json::Array(v);
        proof {
            lemma_array_view(&r);
            assert(self@.subrange(0, i as int) =~= self@);
            assert(r@->Array_0 =~= json_views(v@));
        }
        r
    }

    /// The items' texts, each trimmed, joined with single spaces; a mention
    /// is written `~ship`.
    pub fn to_formatted_string(&self) -> (r: String)
        ensures
            r@ == display_text(self@),
    {
        let mut out = String::new();
        let mut i: usize = 0;
        assert(self@.subrange(0, 0) =~= Seq::<ContentModel>::empty());
        while i < self.content_list.len()
            invariant
                i <= self.content_list@.len(),
                out@ == display_text(self@.subrange(0, i as int)),
            decreases self.content_list@.len() - i,
        {
            let ghost next = self@.subrange(0, i as int + 1);
            assert(next.drop_last() =~= self@.subrange(0, i as int));
            let t = self.content_list[i].display();
            if i > 0 {
                out.push(' ');
            }
            out.append(t.as_str());
            proof {
                if i == 0 {
                    assert(out@ =~= item_display(next[0]));
                } else {
                    assert(out@ =~= display_text(next.drop_last()) + seq![' '] + item_display(
                        next.last(),
                    ));
                }
            }
            i = i + 1;
        }
        assert(self@.subrange(0, i as int) =~= self@);
        out
    }

    /// The words of the formatted text.
    pub fn to_formatted_words(&self) -> (r: Vec<String>)
        ensures
            views(r@) == words(display_text(self@)),
    {
        let s = self.to_formatted_string();
        split_words(s.as_str())
    }
}

/// An item read back from its wire form is the item itself.
pub proof fn lemma_content_round_trip(c: ContentModel)
    ensures
        content_from_wire(content_wire(c)) == Some(c),
{
    reveal_strlit("text");
    reveal_strlit("url");
    reveal_strlit("mention");
    reveal_strlit("code");
    reveal_strlit("expression");
    reveal_strlit("output");
    reveal_with_fuel(crate::json::member_pos, 3);
    assert("text"@[0] == 't' && "url"@[0] == 'u' && "mention"@[0] == 'm' && "code"@[0] == 'c');
    assert("expression"@[0] == 'e' && "output"@[0] == 'o');
    assert("text"@ != "url"@);
    assert("text"@ != "mention"@);
    assert("url"@ != "mention"@);
    assert("text"@ != "code"@);
    assert("url"@ != "code"@);
    assert("mention"@ != "code"@);
    assert("expression"@ != "output"@);
    assert(seq![("text"@, JsonModel::Null)].drop_last() =~= Seq::<(Seq<char>, JsonModel)>::empty());
}

/// A list of items read back from its wire form is the list itself.
pub proof fn lemma_contents_round_trip(cs: Seq<ContentModel>)
    ensures
        contents_from_wire(contents_wire(cs)) == Some(cs),
    decreases cs.len(),
{
    if cs.len() > 0 {
        lemma_contents_round_trip(cs.drop_last());
        lemma_content_round_trip(cs.last());
        assert(contents_wire(cs).drop_last() =~= contents_wire(cs.drop_last()));
        assert(cs.drop_last().push(cs.last()) =~= cs);
    } else {
        assert(contents_wire(cs) =~= Seq::<JsonModel>::empty());
    }
}

proof fn lemma_contents_prefix_none(items: Seq<JsonModel>, k: int)
    requires
        0 < k <= items.len(),
        content_from_wire(items[k - 1]) is None,
    ensures
        contents_from_wire(items) is None,
    decreases items.len(),
{
    if k < items.len() {
        lemma_contents_prefix_none(items.drop_last(), k);
    }
}

} // verus!
