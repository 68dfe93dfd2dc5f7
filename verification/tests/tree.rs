use std::fmt::Display;
use std::str::Utf8Error;
use tree_ds::prelude::{AutomatedId, Node, NodeRemovalStrategy, Result, TraversalStrategy, Tree};

#[test]
fn test_tree() -> Result<()> {
    let mut tree = Tree::new(Some("Corporate Structure"));

    let managing_director_node =
        tree.add_node(Node::new("Managing Director", Some("Harry Doe")), None)?;
    let ceo_node = tree.add_node(
        Node::new("CEO", Some("Francois Mercer")),
        Some(&managing_director_node),
    )?;
    let cto_node = tree.add_node(Node::new("CTO", Some("John Doe")), Some(&ceo_node))?;
    let cfo_node = tree.add_node(Node::new("CFO", Some("Jane Doe")), Some(&ceo_node))?;
    let cmo_node = tree.add_node(Node::new("CMO", Some("Alice Doe")), Some(&ceo_node))?;
    let coo_node = tree.add_node(Node::new("COO", Some("Bob Doe")), Some(&ceo_node))?;
    let clo_node = tree.add_node(Node::new("CLO", Some("Eve Doe")), Some(&ceo_node))?;
    let operations_manager_node = tree.add_node(
        Node::new("Operations Manager", Some("Charlie Doe")),
        Some(&coo_node),
    )?;
    let finance_manager_node = tree.add_node(
        Node::new("Finance Manager", Some("David Doe")),
        Some(&cfo_node),
    )?;
    let marketing_manager_node = tree.add_node(
        Node::new("Marketing Manager", Some("Grace Doe")),
        Some(&cmo_node),
    )?;
    let legal_manager_node = tree.add_node(
        Node::new("Legal Manager", Some("Hannah Doe")),
        Some(&clo_node),
    )?;
    let tech_manager_node =
        tree.add_node(Node::new("Tech Manager", Some("Ivy Doe")), Some(&cto_node))?;
    let mut legal_team = Tree::new(Some("Legal Team"));
    let legal_team_lead_node =
        legal_team.add_node(Node::new("Legal Team Lead", Some("Katie Doe")), None)?;
    legal_team.add_node(
        Node::new("Legal Team Member 1", Some("Liam Doe")),
        Some(&legal_team_lead_node),
    )?;
    legal_team.add_node(
        Node::new("Legal Team Member 2", Some("Mia Doe")),
        Some(&legal_team_lead_node),
    )?;
    legal_team.add_node(
        Node::new("Legal Team Member 3", Some("Noah Doe")),
        Some(&legal_team_lead_node),
    )?;
    let mut tech_team = Tree::new(Some("Tech Team"));
    let tech_team_lead_node =
        tech_team.add_node(Node::new("Tech Team Lead", Some("Olivia Doe")), None)?;
    tech_team.add_node(
        Node::new("Tech Team Member 1", Some("Peter Doe")),
        Some(&tech_team_lead_node),
    )?;
    let tech_team_member_2 = tech_team.add_node(
        Node::new("Tech Team Member 2", Some("Quinn Doe")),
        Some(&tech_team_lead_node),
    )?;
    tech_team.add_node(
        Node::new("Tech Team Member 3", Some("Ryan Doe")),
        Some(&tech_team_lead_node),
    )?;
    tech_team.add_node(
        Node::new("Tech Team Member 4", Some("Sarah Doe")),
        Some(&tech_team_lead_node),
    )?;
    let mut finance_team = Tree::new(Some("Finance Team"));
    let finance_team_lead_node =
        finance_team.add_node(Node::new("Finance Team Lead", Some("Tom Doe")), None)?;
    finance_team.add_node(
        Node::new("Finance Team Member 1", Some("Ursula Doe")),
        Some(&finance_team_lead_node),
    )?;
    finance_team.add_node(
        Node::new("Finance Team Member 2", Some("Victor Doe")),
        Some(&finance_team_lead_node),
    )?;
    finance_team.add_node(
        Node::new("Finance Team Member 3", Some("Wendy Doe")),
        Some(&finance_team_lead_node),
    )?;
    let mut marketing_team = Tree::new(Some("Marketing Team"));
    let marketing_team_lead_node =
        marketing_team.add_node(Node::new("Marketing Team Lead", Some("Xander Doe")), None)?;
    marketing_team.add_node(
        Node::new("Marketing Team Member 1", Some("Yara Doe")),
        Some(&marketing_team_lead_node),
    )?;
    marketing_team.add_node(
        Node::new("Marketing Team Member 2", Some("Zane Doe")),
        Some(&marketing_team_lead_node),
    )?;
    let mut operations_team = Tree::new(Some("Operations Team"));
    let operations_team_lead_node =
        operations_team.add_node(Node::new("Operations Team Lead", Some("Abby Doe")), None)?;
    operations_team.add_node(
        Node::new("Operations Team Member 1", Some("Ben Doe")),
        Some(&operations_team_lead_node),
    )?;
    operations_team.add_node(
        Node::new("Operations Team Member 2", Some("Cara Doe")),
        Some(&operations_team_lead_node),
    )?;
    operations_team.add_node(
        Node::new("Operations Team Member 3", Some("Dylan Doe")),
        Some(&operations_team_lead_node),
    )?;
    operations_team.add_node(
        Node::new("Operations Team Member 4", Some("Ella Doe")),
        Some(&operations_team_lead_node),
    )?;

    tree.add_subtree(&legal_manager_node, legal_team)?;
    tree.add_subtree(&tech_manager_node, tech_team)?;
    tree.add_subtree(&finance_manager_node, finance_team)?;
    tree.add_subtree(&marketing_manager_node, marketing_team)?;
    tree.add_subtree(&operations_manager_node, operations_team)?;

    assert_eq!(tree.get_subtree(&ceo_node, Some(1))?.get_nodes().len(), 6);
    assert_eq!(tree.get_subtree(&cto_node, None)?.get_nodes().len(), 7);
    assert_eq!(
        tree.get_subtree(&finance_team_lead_node, None)?
            .get_nodes()
            .len(),
        4
    );

    tree.remove_node(&tech_team_member_2, NodeRemovalStrategy::RetainChildren)?;
    assert_eq!(
        tree.get_subtree(&tech_manager_node, None)?
            .get_nodes()
            .len(),
        5
    );

    tree.remove_node(
        &tech_manager_node,
        NodeRemovalStrategy::RemoveNodeAndChildren,
    )?;
    assert_eq!(tree.get_subtree(&cto_node, None)?.get_nodes().len(), 1);

    tree.remove_node(
        &operations_team_lead_node,
        NodeRemovalStrategy::RetainChildren,
    )?;
    assert_eq!(
        tree.get_subtree(&operations_manager_node, None)?
            .get_nodes()
            .len(),
        5
    );

    let traversal = tree.traverse(&finance_manager_node, TraversalStrategy::PreOrder)?;
    for node_id in traversal.iter() {
        let mut node = tree.get_node_by_id(node_id).unwrap();
        node.set_value(None);
        tree.update_node(node)?;
    }

    assert_eq!(
        tree.get_node_by_id(&finance_manager_node)
            .unwrap()
            .get_value(),
        None
    );
    assert_eq!(
        tree.get_node_by_id(&finance_team_lead_node)
            .unwrap()
            .get_value(),
        None
    );

    Ok(())
}

#[derive(Clone, Debug, Eq, PartialEq, Hash)]
pub struct Position {
    pub title: String,
    pub salary: u32,
}

impl Default for Position {
    fn default() -> Self {
        Self {
            title: "Employee".to_string(),
            salary: 50000,
        }
    }
}

impl Display for Position {
    fn fmt(&self, f: &mut std::fmt::Formatter<'_>) -> std::fmt::Result {
        let salary = self
            .salary
            .to_string()
            .as_bytes()
            .rchunks(3)
            .rev()
            .map(std::str::from_utf8)
            .collect::<std::result::Result<Vec<&str>, Utf8Error>>()
            .unwrap()
            .join(",");
        f.write_str(&format!(
            "Position: \"{}\", Annual Salary: ${}",
            self.title, salary
        ))
    }
}

fn position(title: &str, salary: u32) -> Option<Position> {
    Some(Position {
        title: title.to_string(),
        salary,
    })
}

#[test]
fn test_tree_with_auto_id() -> Result<()> {
    let mut tree: Tree<AutomatedId, Position> = Tree::new(Some("Corporate Structure"));

    let managing_director_node = tree
        .add_node(
            Node::new_with_auto_id(position("Managing Director", 100000)),
            None,
        )
        .unwrap();
    let ceo_node = tree
        .add_node(
            Node::new_with_auto_id(position("CEO", 90000)),
            Some(&managing_director_node),
        )
        .unwrap();
    let cto_node = tree
        .add_node(
            Node::new_with_auto_id(position("CTO", 80000)),
            Some(&ceo_node),
        )
        .unwrap();
    let cfo_node = tree
        .add_node(
            Node::new_with_auto_id(position("CFO", 80000)),
            Some(&ceo_node),
        )
        .unwrap();
    let cmo_node = tree
        .add_node(
            Node::new_with_auto_id(position("CMO", 80000)),
            Some(&ceo_node),
        )
        .unwrap();
    let coo_node = tree
        .add_node(
            Node::new_with_auto_id(position("COO", 80000)),
            Some(&ceo_node),
        )
        .unwrap();
    let clo_node = tree
        .add_node(
            Node::new_with_auto_id(position("CLO", 80000)),
            Some(&ceo_node),
        )
        .unwrap();
    let operations_manager_node = tree
        .add_node(
            Node::new_with_auto_id(position("Operations Manager", 70000)),
            Some(&coo_node),
        )
        .unwrap();
    let finance_manager_node = tree
        .add_node(
            Node::new_with_auto_id(position("Finance Manager", 70000)),
            Some(&cfo_node),
        )
        .unwrap();
    let marketing_manager_node = tree
        .add_node(
            Node::new_with_auto_id(position("Marketing Manager", 70000)),
            Some(&cmo_node),
        )
        .unwrap();
    let legal_manager_node = tree
        .add_node(
            Node::new_with_auto_id(position("Legal Manager", 70000)),
            Some(&clo_node),
        )
        .unwrap();
    let tech_manager_node = tree
        .add_node(
            Node::new_with_auto_id(position("Tech Manager", 70000)),
            Some(&cto_node),
        )
        .unwrap();

    let mut legal_team: Tree<AutomatedId, Position> = Tree::new(Some("Legal Team"));
    let legal_team_lead_node = legal_team.add_node(
        Node::new_with_auto_id(position("Legal Team Lead", 60000)),
        None,
    )?;
    legal_team.add_node(
        Node::new_with_auto_id(position("Legal Team Member", 50000)),
        Some(&legal_team_lead_node),
    )?;
    let mut tech_team: Tree<AutomatedId, Position> = Tree::new(Some("Tech Team"));
    let tech_team_lead_node = tech_team.add_node(
        Node::new_with_auto_id(position("Tech Team Lead", 60000)),
        None,
    )?;
    let tech_team_member = tech_team.add_node(
        Node::new_with_auto_id(position("Tech Team Member", 50000)),
        Some(&tech_team_lead_node),
    )?;
    let mut finance_team: Tree<AutomatedId, Position> = Tree::new(Some("Finance Team"));
    let finance_team_lead_node = finance_team.add_node(
        Node::new_with_auto_id(position("Finance Team Lead", 60000)),
        None,
    )?;
    finance_team.add_node(
        Node::new_with_auto_id(position("Finance Team Member", 50000)),
        Some(&finance_team_lead_node),
    )?;
    let mut marketing_team: Tree<AutomatedId, Position> = Tree::new(Some("Marketing Team"));
    let marketing_team_lead_node = marketing_team.add_node(
        Node::new_with_auto_id(position("Marketing Team Lead", 60000)),
        None,
    )?;
    marketing_team.add_node(
        Node::new_with_auto_id(position("Marketing Team Member", 50000)),
        Some(&marketing_team_lead_node),
    )?;
    let mut operations_team: Tree<AutomatedId, Position> = Tree::new(Some("Operations Team"));
    let operations_team_lead_node = operations_team.add_node(
        Node::new_with_auto_id(position("Operations Team Lead", 60000)),
        None,
    )?;
    operations_team.add_node(
        Node::new_with_auto_id(position("Operations Team Member", 50000)),
        Some(&operations_team_lead_node),
    )?;

    tree.add_subtree(&legal_manager_node, legal_team)?;
    tree.add_subtree(&tech_manager_node, tech_team)?;
    tree.add_subtree(&finance_manager_node, finance_team)?;
    tree.add_subtree(&marketing_manager_node, marketing_team)?;
    tree.add_subtree(&operations_manager_node, operations_team)?;

    assert_eq!(tree.get_subtree(&ceo_node, Some(1))?.get_nodes().len(), 6);
    assert_eq!(tree.get_subtree(&cto_node, None)?.get_nodes().len(), 4);
    assert_eq!(
        tree.get_subtree(&finance_team_lead_node, None)?
            .get_nodes()
            .len(),
        2
    );

    tree.remove_node(&tech_team_member, NodeRemovalStrategy::RetainChildren)?;
    assert_eq!(
        tree.get_subtree(&tech_manager_node, None)?
            .get_nodes()
            .len(),
        2
    );

    tree.remove_node(
        &tech_manager_node,
        NodeRemovalStrategy::RemoveNodeAndChildren,
    )?;
    assert_eq!(tree.get_subtree(&cto_node, None)?.get_nodes().len(), 1);

    tree.remove_node(
        &operations_team_lead_node,
        NodeRemovalStrategy::RetainChildren,
    )?;
    assert_eq!(
        tree.get_subtree(&operations_manager_node, None)?
            .get_nodes()
            .len(),
        2
    );

    let traversal = tree.traverse(&finance_manager_node, TraversalStrategy::PreOrder)?;
    for node_id in traversal.iter() {
        let mut node = tree.get_node_by_id(node_id).unwrap();
        node.set_value(None);
        tree.update_node(node)?;
    }

    assert_eq!(
        tree.get_node_by_id(&finance_manager_node)
            .unwrap()
            .get_value(),
        None
    );
    assert_eq!(
        tree.get_node_by_id(&finance_team_lead_node)
            .unwrap()
            .get_value(),
        None
    );
    let text = tree.to_string();
    assert!(text.starts_with("Corporate Structure\n*******************\n"));
    assert!(text.contains(": Position: \"Employee\", Annual Salary: $50,000\n"));
    assert!(text.contains(": Position: \"CEO\", Annual Salary: $90,000\n"));
    Ok(())
}
