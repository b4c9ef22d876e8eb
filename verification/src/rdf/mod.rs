//! RDF: terms, triples, and an in-memory triple store with one index for each
//! position of a triple.

use vstd::prelude::*;

use crate::text::{chars_of, same_text, string_of};

pub mod evaluate;
pub mod laws;
pub mod query_laws;
pub mod roundtrip;
pub mod serialize;
pub mod sparql;
pub mod sparql_laws;
pub mod store;
pub mod tokens;

pub use store::TripleStore;

verus! {

/// An RDF term: the kind of value that can stand in any position of a triple.
///
/// The second field of a literal is `None` for a plain literal, a text that
/// starts with `@` for a language tag, and a datatype IRI otherwise.
#[derive(Debug)]
pub enum RdfTerm {
    /// An IRI reference.
    Uri(String),
    /// A blank node, by its label without the `_:` prefix.
    BlankNode(String),
    /// A literal with its optional language tag or datatype.
    Literal(String, Option<String>),
}

/// The mathematical value of an [`RdfTerm`].
pub enum TermView {
    Uri(Seq<char>),
    BlankNode(Seq<char>),
    Literal(Seq<char>, Option<Seq<char>>),
}

/// The text of an optional string.
pub open spec fn tag_view(tag: Option<String>) -> Option<Seq<char>> {
    match tag {
        None => None,
        Some(t) => Some(t@),
    }
}

impl View for RdfTerm {
    type V = TermView;

    open spec fn view(&self) -> TermView {
        match *self {
            RdfTerm::Uri(s) => TermView::Uri(s@),
            RdfTerm::BlankNode(s) => TermView::BlankNode(s@),
            RdfTerm::Literal(s, tag) => TermView::Literal(s@, tag_view(tag)),
        }
    }
}

impl Clone for RdfTerm {
    fn clone(&self) -> (res: Self)
        ensures
            res@ == self@,
    {
        match self {
            RdfTerm::Uri(s) => RdfTerm::Uri(s.clone()),
            RdfTerm::BlankNode(s) => RdfTerm::BlankNode(s.clone()),
            RdfTerm::Literal(s, None) => RdfTerm::Literal(s.clone(), None),
            RdfTerm::Literal(s, Some(t)) => RdfTerm::Literal(s.clone(), Some(t.clone())),
        }
    }
}

impl PartialEq for RdfTerm {
    fn eq(&self, other: &Self) -> (r: bool) {
        match (self, other) {
            (RdfTerm::Uri(a), RdfTerm::Uri(b)) => same_text(a.as_str(), b.as_str()),
            (RdfTerm::BlankNode(a), RdfTerm::BlankNode(b)) => same_text(a.as_str(), b.as_str()),
            (RdfTerm::Literal(a, None), RdfTerm::Literal(b, None)) => same_text(
                a.as_str(),
                b.as_str(),
            ),
            (RdfTerm::Literal(a, Some(s)), RdfTerm::Literal(b, Some(t))) => same_text(
                a.as_str(),
                b.as_str(),
            ) && same_text(s.as_str(), t.as_str()),
            _ => false,
        }
    }
}

impl vstd::std_specs::cmp::PartialEqSpecImpl for RdfTerm {
    open spec fn obeys_eq_spec() -> bool {
        true
    }

    open spec fn eq_spec(&self, other: &Self) -> bool {
        self@ == other@
    }
}

impl Eq for RdfTerm {

}

/// Whether the tag of a literal marks a language.
pub open spec fn is_lang_tag(tag: Seq<char>) -> bool {
    tag.len() > 0 && tag[0] == '@'
}

impl RdfTerm {
    /// A URI term.
    pub fn uri(s: &str) -> (res: Self)
        ensures
            res@ == TermView::Uri(s@),
    {
        RdfTerm::Uri(s.to_owned())
    }

    /// A blank-node term.
    pub fn blank(s: &str) -> (res: Self)
        ensures
            res@ == TermView::BlankNode(s@),
    {
        RdfTerm::BlankNode(s.to_owned())
    }

    /// A literal without language tag and datatype.
    pub fn plain_literal(s: &str) -> (res: Self)
        ensures
            res@ == TermView::Literal(s@, None),
    {
        RdfTerm::Literal(s.to_owned(), None)
    }

    /// A literal with the given datatype IRI.
    pub fn typed_literal(s: &str, datatype: &str) -> (res: Self)
        ensures
            res@ == TermView::Literal(s@, Some(datatype@)),
    {
        RdfTerm::Literal(s.to_owned(), Some(datatype.to_owned()))
    }

    /// A literal with the given language tag.
    pub fn lang_literal(s: &str, lang: &str) -> (res: Self)
        ensures
            res@ == TermView::Literal(s@, Some(seq!['@'] + lang@)),
    {
        let mut tag: String = String::new();
        tag.push('@');
        tag.append(lang);
        proof {
            assert(tag@ == seq!['@'] + lang@);
        }
        RdfTerm::Literal(s.to_owned(), Some(tag))
    }

    /// The datatype IRI, if this is a typed literal.
    pub fn datatype(&self) -> (res: Option<String>)
        ensures
            tag_view(res) == (match self@ {
                TermView::Literal(_, Some(d)) => if is_lang_tag(d) {
                    None
                } else {
                    Some(d)
                },
                _ => None,
            }),
    {
        match self {
            RdfTerm::Literal(_, Some(d)) => {
                let chars: Vec<char> = chars_of(d.as_str());
                if chars.len() > 0 && chars[0] == '@' {
                    None
                } else {
                    Some(d.clone())
                }
            },
            _ => None,
        }
    }

    /// The language tag without its `@`, if this is a language-tagged literal.
    pub fn lang(&self) -> (res: Option<String>)
        ensures
            tag_view(res) == (match self@ {
                TermView::Literal(_, Some(d)) => if is_lang_tag(d) {
                    Some(d.skip(1))
                } else {
                    None
                },
                _ => None,
            }),
    {
        match self {
            RdfTerm::Literal(_, Some(d)) => {
                let chars: Vec<char> = chars_of(d.as_str());
                if chars.len() > 0 && chars[0] == '@' {
                    Some(string_of(chars.as_slice(), 1, chars.len()))
                } else {
                    None
                }
            },
            _ => None,
        }
    }

    /// The lexical form of a literal, or the IRI or label of another term.
    pub fn lexical_form(&self) -> (res: &str)
        ensures
            res@ == lexical(self@),
    {
        match self {
            RdfTerm::Uri(s) => s.as_str(),
            RdfTerm::BlankNode(s) => s.as_str(),
            RdfTerm::Literal(s, _) => s.as_str(),
        }
    }
}

/// The text that a term carries.
pub open spec fn lexical(t: TermView) -> Seq<char> {
    match t {
        TermView::Uri(s) => s,
        TermView::BlankNode(s) => s,
        TermView::Literal(s, _) => s,
    }
}

/// A triple: subject, predicate and object.
#[derive(Debug)]
pub struct Triple {
    pub subject: RdfTerm,
    pub predicate: RdfTerm,
    pub object: RdfTerm,
}

/// The mathematical value of a [`Triple`].
pub struct TripleView {
    pub subject: TermView,
    pub predicate: TermView,
    pub object: TermView,
}

impl View for Triple {
    type V = TripleView;

    open spec fn view(&self) -> TripleView {
        TripleView {
            subject: self.subject@,
            predicate: self.predicate@,
            object: self.object@,
        }
    }
}

impl Clone for Triple {
    fn clone(&self) -> (res: Self)
        ensures
            res@ == self@,
    {
        Triple {
            subject: self.subject.clone(),
            predicate: self.predicate.clone(),
            object: self.object.clone(),
        }
    }
}

impl PartialEq for Triple {
    fn eq(&self, other: &Self) -> (r: bool) {
        self.subject == other.subject && self.predicate == other.predicate && self.object
            == other.object
    }
}

impl vstd::std_specs::cmp::PartialEqSpecImpl for Triple {
    open spec fn obeys_eq_spec() -> bool {
        true
    }

    open spec fn eq_spec(&self, other: &Self) -> bool {
        self@ == other@
    }
}

impl Eq for Triple {

}

impl Triple {
    /// A triple of the given terms.
    pub fn new(subject: RdfTerm, predicate: RdfTerm, object: RdfTerm) -> (res: Self)
        ensures
            res@ == (TripleView {
                subject: subject@,
                predicate: predicate@,
                object: object@,
            }),
    {
        Triple { subject, predicate, object }
    }
}

/// The values of a sequence of triples.
pub open spec fn triple_views(s: Seq<Triple>) -> Seq<TripleView> {
    s.map_values(|t: Triple| t@)
}

/// The values of a sequence of references to triples.
pub open spec fn triple_ref_views(s: Seq<&Triple>) -> Seq<TripleView> {
    s.map_values(|t: &Triple| t@)
}

} // verus!
