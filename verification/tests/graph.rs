use int_vault::index::VaultIndex;
use int_vault::note::Note;

fn index_with(files: &[(&str, &str)]) -> VaultIndex {
    let notes: Vec<Note> = files.iter().map(|(p, c)| Note::parse(p, c, 0, None)).collect();
    VaultIndex::build(notes)
}

fn sample() -> VaultIndex {
    index_with(&[
        ("A.md", "[[B]] and [[B]] again, [[Ghost]] and [[A]]\n"),
        ("B.md", "# B\nback to [[A]] and [[ghost]]\n"),
    ])
}

#[test]
fn graph_keeps_one_edge_per_pair_and_adds_ghosts() {
    let graph = sample().graph(true);
    let ids: Vec<&str> = graph.nodes.iter().map(|n| n.id.as_str()).collect();
    assert_eq!(ids, vec!["A.md", "B.md", "ghost"]);
    let edges: Vec<(&str, &str)> = graph.edges.iter().map(|e| (e.source.as_str(), e.target.as_str())).collect();
    assert_eq!(edges, vec![("A.md", "B.md"), ("A.md", "ghost"), ("B.md", "A.md"), ("B.md", "ghost")]);
    let ghost = &graph.nodes[2];
    assert!(!ghost.exists);
    assert_eq!(ghost.label, "Ghost");
    assert_eq!(ghost.degree, 2);
    assert_eq!(graph.nodes[0].degree, 3);
    assert_eq!(graph.nodes[1].degree, 3);
    assert!(graph.nodes[0].exists);
    assert_eq!(graph.nodes[1].label, "B");
}

#[test]
fn graph_without_ghosts_drops_unresolved_links() {
    let graph = sample().graph(false);
    assert_eq!(graph.nodes.len(), 2);
    let edges: Vec<(&str, &str)> = graph.edges.iter().map(|e| (e.source.as_str(), e.target.as_str())).collect();
    assert_eq!(edges, vec![("A.md", "B.md"), ("B.md", "A.md")]);
    assert_eq!(graph.nodes[0].degree, 2);
}
