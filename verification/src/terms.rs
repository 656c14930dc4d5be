use vstd::prelude::*;
use vstd::string::*;

verus! {

/// A subject or object position of a triple: either a stable, globally
/// addressable name (an IRI), or an anonymous handle unique within one run.
pub enum Identifier {
    Named(String),
    Blank(u64),
}

/// Mathematical mirror of `Identifier`.
pub enum IdentModel {
    Named(Seq<char>),
    Blank(u64),
}

impl View for Identifier {
    type V = IdentModel;

    open spec fn view(&self) -> IdentModel {
        match self {
            Identifier::Named(s) => IdentModel::Named(s@),
            Identifier::Blank(b) => IdentModel::Blank(*b),
        }
    }
}

impl Clone for Identifier {
    fn clone(&self) -> (r: Self)
        ensures
            r@ == self@,
    {
        match self {
            Identifier::Named(s) => Identifier::Named(s.clone()),
            Identifier::Blank(b) => Identifier::Blank(*b),
        }
    }
}

impl Identifier {
    /// Whether this identifier is a blank (anonymous) one.
    pub fn is_blank(&self) -> (r: bool)
        ensures
            r == (self@ is Blank),
    {
        match self {
            Identifier::Named(_) => false,
            Identifier::Blank(_) => true,
        }
    }
}

/// One emitted relation: subject and object identifiers around a predicate
/// given by its full IRI.
pub struct Triple {
    pub subject: Identifier,
    pub predicate: String,
    pub object: Identifier,
}

/// Mathematical mirror of `Triple`.
pub struct TripleModel {
    pub subject: IdentModel,
    pub predicate: Seq<char>,
    pub object: IdentModel,
}

impl View for Triple {
    type V = TripleModel;

    open spec fn view(&self) -> TripleModel {
        TripleModel { subject: self.subject@, predicate: self.predicate@, object: self.object@ }
    }
}

/// Character-for-character equality of two string slices.
pub fn str_eq(a: &str, b: &str) -> (r: bool)
    ensures
        r == (a@ == b@),
{
    let la = a.unicode_len();
    let lb = b.unicode_len();
    if la != lb {
        return false;
    }
    let mut i: usize = 0;
    while i < la
        invariant
            i <= la,
            la == a@.len(),
            lb == b@.len(),
            la == lb,
            forall|j: int| 0 <= j < i ==> a@[j] == b@[j],
        decreases la - i,
    {
        if a.get_char(i) != b.get_char(i) {
            return false;
        }
        i = i + 1;
    }
    proof {
        assert(a@ =~= b@);
    }
    true
}

/// The fixed mapping from literal token text to a canonical ontology term
/// name. Read-only for a run; the first entry with a matching key decides.
pub struct KeywordTable {
    entries: Vec<(String, String)>,
}

impl View for KeywordTable {
    type V = Seq<(Seq<char>, Seq<char>)>;

    closed spec fn view(&self) -> Seq<(Seq<char>, Seq<char>)> {
        self.entries@.map_values(|e: (String, String)| (e.0@, e.1@))
    }
}

/// The canonical name the table gives to `key`, if any: the value beside the
/// first matching key.
pub open spec fn lookup_model(t: Seq<(Seq<char>, Seq<char>)>, key: Seq<char>) -> Option<Seq<char>>
    decreases t.len(),
{
    if t.len() == 0 {
        Option::None
    } else if t[0].0 == key {
        Option::Some(t[0].1)
    } else {
        lookup_model(t.subrange(1, t.len() as int), key)
    }
}

impl KeywordTable {
    /// An empty table.
    pub fn new() -> (t: KeywordTable)
        ensures
            t@ == Seq::<(Seq<char>, Seq<char>)>::empty(),
    {
        let t = KeywordTable { entries: Vec::new() };
        proof {
            assert(t@ =~= Seq::<(Seq<char>, Seq<char>)>::empty());
        }
        t
    }

    /// Append one key/value pair.
    pub fn add(&mut self, key: String, value: String)
        ensures
            final(self)@ == old(self)@.push((key@, value@)),
    {
        let ghost before = self@;
        self.entries.push((key, value));
        proof {
            assert(self@ =~= before.push((key@, value@)));
        }
    }

    /// Look `key` up; the answer agrees with `lookup_model`.
    pub fn lookup(&self, key: &str) -> (r: Option<&String>)
        ensures
            match r {
                Option::Some(v) => lookup_model(self@, key@) == Option::Some(v@),
                Option::None => lookup_model(self@, key@) is None,
            },
    {
        let mut i: usize = 0;
        let n = self.entries.len();
        proof {
            assert(self@.subrange(0, self@.len() as int) =~= self@);
        }
        while i < n
            invariant
                i <= n,
                n == self.entries@.len(),
                self@ == self.entries@.map_values(|e: (String, String)| (e.0@, e.1@)),
                lookup_model(self@, key@) == lookup_model(
                    self@.subrange(i as int, self@.len() as int),
                    key@,
                ),
            decreases n - i,
        {
            let ghost tail = self@.subrange(i as int, self@.len() as int);
            if str_eq(self.entries[i].0.as_str(), key) {
                proof {
                    assert(tail[0] == self@[i as int]);
                }
                return Some(&self.entries[i].1);
            }
            proof {
                assert(tail[0] == self@[i as int]);
                assert(tail.subrange(1, tail.len() as int) =~= self@.subrange(
                    i + 1,
                    self@.len() as int,
                ));
            }
            i = i + 1;
        }
        proof {
            assert(self@.subrange(i as int, self@.len() as int) =~= Seq::<(
                Seq<char>,
                Seq<char>,
            )>::empty());
        }
        None
    }
}

/// The reserved marker character: a token starting with it is routed to the
/// ontology namespace with the marker stripped.
pub open spec fn marker_char() -> char {
    ':'
}

/// Whether `text` resolves into the ontology namespace: either the table
/// names it, or it carries the reserved marker prefix.
pub open spec fn routed_to_ontology(table: Seq<(Seq<char>, Seq<char>)>, text: Seq<char>) -> bool {
    lookup_model(table, text) is Some || (text.len() > 0 && text[0] == marker_char())
}

/// The local name a token resolves to: the table's canonical term first, else
/// the token with the marker stripped, else the token itself.
pub open spec fn resolved_local(table: Seq<(Seq<char>, Seq<char>)>, text: Seq<char>) -> Seq<char> {
    match lookup_model(table, text) {
        Option::Some(v) => v,
        Option::None => if text.len() > 0 && text[0] == marker_char() {
            text.subrange(1, text.len() as int)
        } else {
            text
        },
    }
}

/// The full predicate IRI a token resolves to under the two namespaces.
pub open spec fn resolved_iri(
    table: Seq<(Seq<char>, Seq<char>)>,
    text: Seq<char>,
    ont_ns: Seq<char>,
    file_ns: Seq<char>,
) -> Seq<char> {
    if routed_to_ontology(table, text) {
        ont_ns + resolved_local(table, text)
    } else {
        file_ns + text
    }
}

/// A token the table names always resolves through the table, into the
/// ontology namespace, even when it also carries the marker prefix.
pub proof fn lemma_keyword_precedence(
    table: Seq<(Seq<char>, Seq<char>)>,
    text: Seq<char>,
    ont_ns: Seq<char>,
    file_ns: Seq<char>,
    v: Seq<char>,
)
    requires
        lookup_model(table, text) == Option::Some(v),
    ensures
        resolved_iri(table, text, ont_ns, file_ns) == ont_ns + v,
{
}

/// A token the table does not name is routed by the marker alone: with the
/// marker, into the ontology namespace stripped of it; without, into the
/// document namespace verbatim.
pub proof fn lemma_namespace_routing(
    table: Seq<(Seq<char>, Seq<char>)>,
    text: Seq<char>,
    ont_ns: Seq<char>,
    file_ns: Seq<char>,
)
    requires
        lookup_model(table, text) is None,
    ensures
        text.len() > 0 && text[0] == marker_char() ==> resolved_iri(table, text, ont_ns, file_ns)
            == ont_ns + text.subrange(1, text.len() as int),
        !(text.len() > 0 && text[0] == marker_char()) ==> resolved_iri(
            table,
            text,
            ont_ns,
            file_ns,
        ) == file_ns + text,
{
}

/// Resolve a token to its full predicate IRI.
pub fn resolve_predicate_iri(text: &str, table: &KeywordTable, ont_ns: &str, file_ns: &str) -> (r:
    String)
    ensures
        r@ == resolved_iri(table@, text@, ont_ns@, file_ns@),
{
    match table.lookup(text) {
        Option::Some(v) => String::from_str(ont_ns).concat(v.as_str()),
        Option::None => {
            let len = text.unicode_len();
            if len > 0 && text.get_char(0) == ':' {
                let rest = text.substring_char(1, len);
                String::from_str(ont_ns).concat(rest)
            } else {
                String::from_str(file_ns).concat(text)
            }
        },
    }
}

/// Whether the triple store's IRI parser accepts `s` as a named identifier.
/// The verdict is a function of the characters alone.
pub uninterp spec fn iri_ok(s: Seq<char>) -> bool;

/// Relies on oxigraph::model::NamedNode::new: it validates the string as an
/// RDF IRI and accepts or refuses it depending on the string alone.
#[verifier::external_body]
pub(crate) fn named_node_accepts(s: &str) -> (r: bool)
    ensures
        r == iri_ok(s@),
{
    oxigraph::model::NamedNode::new(s).is_ok()
}

} // verus!
