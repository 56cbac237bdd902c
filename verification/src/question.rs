use vstd::prelude::*;

use crate::error::Error;

verus! {

/// A validated question identifier: a non-empty string, compared by exact
/// value. It is the unique key under which a question is stored.
#[derive(Debug, PartialEq, Eq, Hash)]
pub struct QuestionId {
    raw: String,
}

impl View for QuestionId {
    type V = Seq<char>;

    closed spec fn view(&self) -> Seq<char> {
        self.raw@
    }
}

impl QuestionId {
    /// An identifier is never empty; `parse` is the only constructor.
    #[verifier::type_invariant]
    closed spec fn inv(self) -> bool {
        self.raw@.len() > 0
    }

    /// Validates a raw string as an identifier: fails with `InvalidInput`
    /// on the empty string, and otherwise wraps the string verbatim, with
    /// no trimming and no normalization.
    pub fn parse(raw: &str) -> (result: Result<QuestionId, Error>)
        ensures
            raw@.len() > 0 ==> (result matches Ok(id) && id@ == raw@),
            raw@.len() == 0 ==> (result matches Err(e) && e == Error::InvalidInput),
    {
        if raw.is_empty() {
            Err(Error::InvalidInput)
        } else {
            Ok(QuestionId { raw: raw.to_owned() })
        }
    }

    /// The wrapped string, exactly as it was parsed.
    pub fn as_str(&self) -> (s: &str)
        ensures
            s@ == self@,
    {
        self.raw.as_str()
    }

    /// Identifier equality is equality of the wrapped strings.
    pub fn same_as(&self, other: &QuestionId) -> (eq: bool)
        ensures
            eq == (self@ == other@),
    {
        self.raw == other.raw
    }
}

impl Clone for QuestionId {
    fn clone(&self) -> (other: Self)
        ensures
            other@ == self@,
    {
        proof {
            use_type_invariant(self);
        }
        QuestionId { raw: self.raw.clone() }
    }
}

/// The mathematical value of a question record: every field as a plain
/// sequence value.
pub struct QuestionView {
    pub id: Seq<char>,
    pub title: Seq<char>,
    pub content: Seq<char>,
    pub tags: Option<Seq<Seq<char>>>,
}

/// A stored record: a validated identifier, a title, a body of content,
/// and an optional tag list kept exactly as supplied.
#[derive(Debug)]
pub struct Question {
    pub id: QuestionId,
    pub title: String,
    pub content: String,
    pub tags: Option<Vec<String>>,
}

impl View for Question {
    type V = QuestionView;

    open spec fn view(&self) -> QuestionView {
        QuestionView {
            id: self.id@,
            title: self.title@,
            content: self.content@,
            tags: self.tags.deep_view(),
        }
    }
}

impl Question {
    /// Builds a record from its parts. The identifier is already
    /// validated and becomes the record's key; the tag list, if present,
    /// is kept as supplied.
    pub fn new(id: QuestionId, title: &str, content: &str, tags: Option<Vec<String>>) -> (q:
        Question)
        ensures
            q@.id == id@,
            q@.title == title@,
            q@.content == content@,
            q@.tags == tags.deep_view(),
    {
        Question { id, title: title.to_owned(), content: content.to_owned(), tags }
    }
}

/// The mathematical values of a sequence of records, in order.
pub open spec fn seq_view(v: Seq<Question>) -> Seq<QuestionView> {
    Seq::new(v.len(), |i: int| v[i]@)
}

/// A sequence of records and its sequence of values have one length.
pub broadcast proof fn lemma_seq_view_len(v: Seq<Question>)
    ensures
        #[trigger] seq_view(v).len() == v.len(),
{
}

/// The value sequence holds each record's value at the record's position.
pub broadcast proof fn lemma_seq_view_index(v: Seq<Question>, i: int)
    requires
        0 <= i < v.len(),
    ensures
        #[trigger] seq_view(v)[i] == v[i]@,
{
}

/// Copies an optional tag list; the copy has the same mathematical value.
fn clone_tags(tags: &Option<Vec<String>>) -> (copy: Option<Vec<String>>)
    ensures
        copy.deep_view() == tags.deep_view(),
{
    match tags {
        None => None,
        Some(list) => {
            let copied = list.clone();
            proof {
                assert(copied.deep_view() =~= list.deep_view());
            }
            Some(copied)
        },
    }
}

impl Clone for Question {
    fn clone(&self) -> (other: Self)
        ensures
            other@ == self@,
    {
        Question {
            id: self.id.clone(),
            title: self.title.clone(),
            content: self.content.clone(),
            tags: clone_tags(&self.tags),
        }
    }
}

} // verus!
