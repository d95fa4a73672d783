//! Parser-level behaviour: frontmatter, wiki links, strengths, nodes,
//! edges and the IRI scheme.

use memexia::edge::{Edge, RelationType};
use memexia::frontmatter::{extract_frontmatter, has_frontmatter, parse_frontmatter, Frontmatter};
use memexia::node::{Node, NodeType};
use memexia::strength::parse_strength_milli;
use memexia::wiki_link::{
    parse_link_str, parse_relation, parse_wiki_links, remove_wiki_links,
    replace_wiki_links_with_text, WikiLink,
};

fn chars(s: &str) -> Vec<char> {
    s.chars().collect()
}

#[test]
fn test_has_frontmatter() {
    assert!(has_frontmatter("---\ntitle: test\n---"));
    assert!(!has_frontmatter("# 标题"));
}

#[test]
fn test_extract_frontmatter() {
    let content = "---\ntitle: 测试\nsummary: 描述\n---\n\n内容";
    let (yaml, remaining) = extract_frontmatter(content);
    assert!(yaml.is_some());
    assert_eq!(remaining.trim(), "内容");
}

#[test]
fn test_frontmatter_to_yaml() {
    let mut fm = Frontmatter::new();
    fm.title = Some("测试".to_string());
    fm.node_type = NodeType::Question;
    fm.tags = vec!["tag1".to_string(), "tag2".to_string()];

    let yaml = fm.to_yaml();
    assert!(yaml.contains("title: \"测试\""));
    assert!(yaml.contains("type: Question"));
    assert!(yaml.contains("tags: [tag1, tag2]"));
}

#[test]
fn test_parse_frontmatter_basic() {
    let content = "---\ntitle: 自由意志\ntype: Concept\ntags: [哲学, 心灵]\nsummary: 关于自由意志的讨论\n---\n\n# 自由意志\n\n自由意志是...";
    let fm = parse_frontmatter(content).unwrap();
    assert_eq!(fm.title, Some("自由意志".to_string()));
    assert_eq!(fm.node_type, NodeType::Concept);
    assert_eq!(fm.tags, vec!["哲学", "心灵"]);
    assert_eq!(fm.summary, Some("关于自由意志的讨论".to_string()));
}

#[test]
fn test_parse_frontmatter_minimal() {
    let content = "---\ntitle: 最小示例\n---\n\n# 最小示例";
    let fm = parse_frontmatter(content).unwrap();
    assert_eq!(fm.title, Some("最小示例".to_string()));
    assert_eq!(fm.node_type, NodeType::Concept);
    assert!(fm.tags.is_empty());
    assert!(fm.summary.is_none());
}

#[test]
fn test_parse_frontmatter_no_frontmatter() {
    let content = "# 标题\n\n内容";
    assert!(parse_frontmatter(content).is_none());
}

#[test]
fn test_parse_frontmatter_invalid_type() {
    let content = "---\ntitle: 测试\ntype: UnknownType\n---\n\n测试内容";
    let fm = parse_frontmatter(content).unwrap();
    assert_eq!(fm.node_type, NodeType::Concept);
}

#[test]
fn test_parse_relation_case_insensitive() {
    assert_eq!(parse_relation("contradicts"), RelationType::Contradicts);
    assert_eq!(parse_relation("CONTRADICTS"), RelationType::Contradicts);
    assert_eq!(parse_relation("Contradicts"), RelationType::Contradicts);
}

#[test]
fn test_parse_relation_unknown() {
    let link = parse_link_str(&chars("目标|UnknownRelation")).unwrap();
    assert_eq!(link.relation, RelationType::RelatedTo);
}

#[test]
fn test_parse_link_basic() {
    let link = parse_link_str(&chars("目标")).unwrap();
    assert_eq!(link.target, "目标");
    assert_eq!(link.relation, RelationType::RelatedTo);
    assert_eq!(link.strength, 1000);
    assert!(link.description.is_empty());
}

#[test]
fn test_parse_link_with_relation() {
    let link = parse_link_str(&chars("目标|Contradicts")).unwrap();
    assert_eq!(link.target, "目标");
    assert_eq!(link.relation, RelationType::Contradicts);
}

#[test]
fn test_parse_link_with_strength() {
    let link = parse_link_str(&chars("目标|Supports:0.85")).unwrap();
    assert_eq!(link.target, "目标");
    assert_eq!(link.relation, RelationType::Supports);
    assert_eq!(link.strength, 850);
}

#[test]
fn test_parse_link_full() {
    let link = parse_link_str(&chars("目标|Refines:0.9:更精确的描述")).unwrap();
    assert_eq!(link.target, "目标");
    assert_eq!(link.relation, RelationType::Refines);
    assert_eq!(link.strength, 900);
    assert_eq!(link.description, "更精确的描述");
}

#[test]
fn test_parse_link_with_underscore() {
    let link = parse_link_str(&chars("目标|Part_Of")).unwrap();
    assert_eq!(link.relation, RelationType::PartOf);
}

#[test]
fn test_parse_wiki_links_multiple() {
    let content = "这是一个文档，包含 [[目标1]] 和 [[目标2|Contradicts]]。\n\n还有 [[目标3|Supports:0.8:描述]] 在这里。";
    let links = parse_wiki_links(content);
    assert_eq!(links.len(), 3);
    assert_eq!(links[0].target, "目标1");
    assert_eq!(links[1].target, "目标2");
    assert_eq!(links[2].target, "目标3");
}

#[test]
fn test_remove_wiki_links() {
    let content = "文本 [[目标1]] 更多文本 [[目标2]] 结束";
    let cleaned = remove_wiki_links(content);
    assert_eq!(cleaned, "文本  更多文本  结束");
}

#[test]
fn test_replace_wiki_links_with_text() {
    let content = "文本 [[目标|显示]] 更多 [[目标2]] 结束";
    let replaced = replace_wiki_links_with_text(content);
    assert_eq!(replaced, "文本 显示 更多  结束");
}

#[test]
fn test_wiki_link_to_edge() {
    let link = WikiLink::new(
        "目标节点".to_string(),
        RelationType::Supports,
        850,
        "支持证据".to_string(),
    );
    let edge = link.to_edge("源节点");
    assert_eq!(edge.from, "源节点");
    assert_eq!(edge.to, "urn:memexia:file:%E7%9B%AE%E6%A0%87%E8%8A%82%E7%82%B9");
    assert_eq!(edge.relation, RelationType::Supports);
}

#[test]
fn test_strength_clamping() {
    let link1 = parse_link_str(&chars("目标|Supports:1.5")).unwrap();
    assert_eq!(link1.strength, 1000);

    let link2 = parse_link_str(&chars("目标|Supports:-0.5")).unwrap();
    assert_eq!(link2.strength, 0);
}

#[test]
fn test_strength_parse_decimals() {
    assert_eq!(parse_strength_milli(&chars("0.85")), Some(850));
    assert_eq!(parse_strength_milli(&chars("1")), Some(1000));
    assert_eq!(parse_strength_milli(&chars("0")), Some(0));
    assert_eq!(parse_strength_milli(&chars("2.5")), Some(1000));
    assert_eq!(parse_strength_milli(&chars("-0.25")), Some(0));
    assert_eq!(parse_strength_milli(&chars("abc")), None);
    assert_eq!(parse_strength_milli(&chars("")), None);
}

#[test]
fn test_node_new() {
    let node = Node::new("test-id", NodeType::Concept, "Test Title");
    assert_eq!(node.id, "test-id");
    assert_eq!(node.node_type, NodeType::Concept);
    assert_eq!(node.title, "Test Title");
    assert!(node.content.is_none());
    assert!(node.tags.is_empty());
}

#[test]
fn test_node_from_file_path() {
    let node = Node::from_file_path("notes/philosophy/free_will.md");
    assert_eq!(node.id, "urn:memexia:file:notes/philosophy/free_will.md");
    assert_eq!(node.node_type, NodeType::Concept);
    assert_eq!(node.title, "free_will");
}

#[test]
fn test_node_add_tag() {
    let mut node = Node::new("test", NodeType::Concept, "Test");
    node.add_tag("philosophy");
    node.add_tag("ethics");
    assert_eq!(node.tags, vec!["philosophy", "ethics"]);
}

#[test]
fn test_node_add_duplicate_tag() {
    let mut node = Node::new("test", NodeType::Concept, "Test");
    node.add_tag("philosophy");
    node.add_tag("philosophy");
    assert_eq!(node.tags.len(), 1);
    assert_eq!(node.tags[0], "philosophy");
}

#[test]
fn test_edge_new() {
    let edge = Edge::new(
        "edge-1",
        "urn:memexia:file:notes/a.md",
        "urn:memexia:file:notes/b.md",
        RelationType::Contradicts,
    );
    assert_eq!(edge.id, "edge-1");
    assert_eq!(edge.from, "urn:memexia:file:notes/a.md");
    assert_eq!(edge.to, "urn:memexia:file:notes/b.md");
    assert_eq!(edge.relation, RelationType::Contradicts);
    assert_eq!(edge.strength, 1000);
}

#[test]
fn test_iri_encoding_ascii_only() {
    let id = memexia::iri::node_id_for_path("notes/笔记 1.md");
    assert!(id.starts_with("urn:memexia:file:notes/"));
    for c in id.chars() {
        assert!(c.is_ascii());
    }
    assert_eq!(
        memexia::iri::encode_iri_component("a b"),
        "a%20b"
    );
}

#[test]
fn test_frontmatter_roundtrip() {
    // a node's frontmatter text parses back to its title, type, tags
    // and summary
    let mut node = Node::new("id", NodeType::Question, "A Title");
    node.add_tag("x");
    node.add_tag("y");
    node.update_content("a summary");
    let text = node.to_frontmatter();
    let doc = memexia::parser::parse_markdown(&text, "f.md");
    let fm = doc.frontmatter.unwrap();
    assert_eq!(fm.title, Some("A Title".to_string()));
    assert_eq!(fm.node_type, NodeType::Question);
    assert_eq!(fm.tags, vec!["x", "y"]);
    assert_eq!(fm.summary, Some("a summary".to_string()));
}

#[test]
fn test_frontmatter_roundtrip_escaped() {
    // quoting and escaping round-trip a title with specials
    let mut fm = Frontmatter::new();
    fm.title = Some("say \"hi\"\nand \\ more".to_string());
    let wrapped = format!("---\n{}---\n", fm.to_yaml());
    let back = parse_frontmatter(&wrapped).unwrap();
    assert_eq!(back.title, Some("say \"hi\"\nand \\ more".to_string()));
}

#[test]
fn test_title_fallbacks() {
    let doc = memexia::parser::parse_markdown("# Heading Title\nbody", "notes/x.md");
    assert_eq!(doc.title, "Heading Title");
    let doc2 = memexia::parser::parse_markdown("no heading", "notes/stem_name.md");
    assert_eq!(doc2.title, "stem_name");
}
