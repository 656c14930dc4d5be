use pddl_triples::generator::generate;
use pddl_triples::terms::{Identifier, KeywordTable, Triple};
use pddl_triples::tree::Node;

const ONT: &str = "http://example.com/pddl_ont/";
const FILE: &str = "http://example.com/test/";

fn named(kind: &str, text: &str, children: Vec<Node>) -> Node {
    Node { kind: kind.to_string(), is_named: true, text: text.to_string(), children }
}

fn punct(text: &str) -> Node {
    Node { kind: text.to_string(), is_named: false, text: text.to_string(), children: Vec::new() }
}

fn init_subject() -> Identifier {
    Identifier::Named("http://example.org/begin/".to_string())
}

fn run_tree(root: &Node, table: &KeywordTable) -> Vec<Triple> {
    generate(root, init_subject(), table, ONT, FILE, "comment")
}

fn predicate(t: &Triple) -> &str {
    t.predicate.as_str()
}

#[test]
fn example_table_and_document_routing() {
    // keyword table {"<": "less_than"}; "<", "x", "y" all children of root
    let mut table = KeywordTable::new();
    table.add("<".to_string(), "less_than".to_string());
    let root = named(
        "root",
        "",
        vec![named("op", "<", vec![]), named("name", "x", vec![]), named("name", "y", vec![])],
    );
    let out = run_tree(&root, &table);
    assert_eq!(out.len(), 3);
    assert_eq!(predicate(&out[0]), "http://example.com/pddl_ont/less_than");
    assert_eq!(predicate(&out[1]), "http://example.com/test/x");
    assert_eq!(predicate(&out[2]), "http://example.com/test/y");
}

#[test]
fn keyword_precedence_beats_marker_prefix() {
    // ":init" is both in the table and marker-prefixed: the table wins
    let mut table = KeywordTable::new();
    table.add(":init".to_string(), "initial_state".to_string());
    let root = named("root", "", vec![named("kw", ":init", vec![])]);
    let out = run_tree(&root, &table);
    assert_eq!(out.len(), 1);
    assert_eq!(predicate(&out[0]), "http://example.com/pddl_ont/initial_state");
}

#[test]
fn marker_prefix_is_stripped_into_ontology_namespace() {
    let table = KeywordTable::new();
    let root = named("root", "", vec![named("kw", ":parameters", vec![])]);
    let out = run_tree(&root, &table);
    assert_eq!(out.len(), 1);
    assert_eq!(predicate(&out[0]), "http://example.com/pddl_ont/parameters");
}

#[test]
fn plain_token_goes_to_document_namespace_verbatim() {
    let table = KeywordTable::new();
    let root = named("root", "", vec![named("name", "robot", vec![])]);
    let out = run_tree(&root, &table);
    assert_eq!(out.len(), 1);
    assert_eq!(predicate(&out[0]), "http://example.com/test/robot");
}

#[test]
fn root_unnamed_and_comment_nodes_emit_nothing() {
    let table = KeywordTable::new();
    let comment = named("comment", "; a remark", vec![]);
    let root = named(
        "root",
        "ignored",
        vec![punct("("), comment, named("name", "kept", vec![]), punct(")")],
    );
    let out = run_tree(&root, &table);
    assert_eq!(out.len(), 1);
    assert_eq!(predicate(&out[0]), "http://example.com/test/kept");
}

#[test]
fn subjects_chain_and_are_restored_on_ascent() {
    // root -> a -> b -> c, then d a sibling of a
    let table = KeywordTable::new();
    let root = named(
        "root",
        "",
        vec![
            named("a", "a", vec![named("b", "b", vec![named("c", "c", vec![])])]),
            named("d", "d", vec![]),
        ],
    );
    let out = run_tree(&root, &table);
    assert_eq!(out.len(), 4);
    // a's subject is the initial one
    match &out[0].subject {
        Identifier::Named(s) => assert_eq!(s, "http://example.org/begin/"),
        Identifier::Blank(_) => panic!("a's subject must be the initial subject"),
    }
    // b hangs under a's fresh object, c under b's
    let a_obj = match &out[0].object {
        Identifier::Blank(id) => *id,
        Identifier::Named(_) => panic!("objects are blank"),
    };
    let b_obj = match &out[1].object {
        Identifier::Blank(id) => *id,
        Identifier::Named(_) => panic!("objects are blank"),
    };
    match &out[1].subject {
        Identifier::Blank(id) => assert_eq!(*id, a_obj),
        Identifier::Named(_) => panic!("b's subject must be a's object"),
    }
    match &out[2].subject {
        Identifier::Blank(id) => assert_eq!(*id, b_obj),
        Identifier::Named(_) => panic!("c's subject must be b's object"),
    }
    // after the two-level ascent, d sees a's context again, not b's or c's
    match &out[3].subject {
        Identifier::Blank(id) => assert_eq!(*id, a_obj),
        Identifier::Named(_) => panic!("d's subject must be a's object"),
    }
}

#[test]
fn blank_objects_are_unique_across_a_run() {
    let table = KeywordTable::new();
    let root = named(
        "root",
        "",
        vec![named("x", "x", vec![]), named("y", "y", vec![]), named("z", "z", vec![])],
    );
    let out = run_tree(&root, &table);
    let mut ids = Vec::new();
    for t in &out {
        assert!(t.object.is_blank());
        match &t.object {
            Identifier::Blank(id) => ids.push(*id),
            Identifier::Named(_) => panic!("objects are blank"),
        }
    }
    assert_eq!(ids.len(), 3);
    for i in 0..ids.len() {
        for j in 0..i {
            assert_ne!(ids[i], ids[j]);
        }
    }
}

#[test]
fn invalid_predicate_iri_skips_the_one_triple_only() {
    // the document namespace cannot form a valid IRI, the ontology one can:
    // the plain token is dropped, the marker-prefixed one still goes through
    let table = KeywordTable::new();
    let root = named("root", "", vec![named("name", "plain", vec![]), named("kw", ":ok", vec![])]);
    let out = generate(&root, init_subject(), &table, ONT, "no spaces allowed ", "comment");
    assert_eq!(out.len(), 1);
    assert_eq!(predicate(&out[0]), "http://example.com/pddl_ont/ok");
}

#[test]
fn comments_never_break_the_context_chain() {
    // a comment between b and c must not disturb restoration for d
    let comment = named("comment", ";", vec![]);
    let table = KeywordTable::new();
    let root = named(
        "root",
        "",
        vec![named("a", "a", vec![named("b", "b", vec![comment])]), named("d", "d", vec![])],
    );
    let out = run_tree(&root, &table);
    assert_eq!(out.len(), 3);
    let a_obj = match &out[0].object {
        Identifier::Blank(id) => *id,
        Identifier::Named(_) => panic!("objects are blank"),
    };
    match &out[2].subject {
        Identifier::Blank(id) => assert_eq!(*id, a_obj),
        Identifier::Named(_) => panic!("d's subject must be a's object"),
    }
}
