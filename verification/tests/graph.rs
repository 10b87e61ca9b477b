use worldgraph::dungeon::{DungeonRegion, EnvironmentType, Portal};
use worldgraph::map_graph::MapGraph;

fn region(id: &str, portals: Vec<Portal>) -> DungeonRegion {
    DungeonRegion {
        id: id.to_string(),
        name: format!("The {}", id),
        description: "somewhere".to_string(),
        environment: EnvironmentType::Fantasy,
        portals,
        anchor_point: None,
    }
}

fn portal(id: &str, leads_to: &str) -> Portal {
    Portal {
        id: id.to_string(),
        name: format!("Portal {}", id),
        leads_to: leads_to.to_string(),
        required_level: 3,
    }
}

#[test]
fn build_unique_ids_returns_original_records() {
    let regions = vec![
        region("nexus", vec![portal("p1", "cave")]),
        region("cave", vec![portal("p2", "nexus")]),
        region("tower", vec![]),
    ];
    let graph = MapGraph::new(regions).unwrap();

    let nexus = graph.get_region("nexus").unwrap();
    assert_eq!(nexus.id, "nexus");
    assert_eq!(nexus.name, "The nexus");
    assert_eq!(nexus.description, "somewhere");
    assert_eq!(nexus.portals.len(), 1);
    assert_eq!(nexus.portals[0].id, "p1");
    assert_eq!(nexus.portals[0].leads_to, "cave");
    assert_eq!(nexus.portals[0].required_level, 3);

    let tower = graph.get_region("tower").unwrap();
    assert_eq!(tower.id, "tower");
    assert_eq!(tower.portals.len(), 0);

    assert!(graph.get_region("nowhere").is_none());
}

#[test]
fn build_duplicate_ids_fails_naming_the_id() {
    let regions = vec![
        region("nexus", vec![]),
        region("cave", vec![]),
        region("cave", vec![]),
    ];
    let err = MapGraph::new(regions).err().unwrap();
    assert_eq!(err.id, "cave");
}

#[test]
fn get_portals_returns_outbound_list() {
    let regions = vec![
        region("nexus", vec![portal("p1", "cave"), portal("p2", "tower")]),
        region("cave", vec![]),
        region("tower", vec![]),
    ];
    let graph = MapGraph::new(regions).unwrap();
    let ps = graph.get_portals("nexus").unwrap();
    assert_eq!(ps.len(), 2);
    assert_eq!(ps[0].id, "p1");
    assert_eq!(ps[1].id, "p2");
    assert!(graph.get_portals("nowhere").is_none());
}

#[test]
fn validate_links_empty_when_all_targets_exist() {
    let regions = vec![
        region("nexus", vec![portal("p1", "cave")]),
        region("cave", vec![portal("p2", "nexus"), portal("p3", "cave")]),
    ];
    let graph = MapGraph::new(regions).unwrap();
    assert_eq!(graph.validate_links().len(), 0);
}

#[test]
fn validate_links_reports_one_defect_per_dangling_portal() {
    let regions = vec![
        region("a", vec![portal("p", "z")]),
        region("b", vec![portal("q", "a")]),
    ];
    let graph = MapGraph::new(regions).unwrap();
    let defects = graph.validate_links();
    assert_eq!(defects.len(), 1);
    assert_eq!(defects[0].source, "a");
    assert_eq!(defects[0].portal_id, "p");
    assert_eq!(defects[0].missing_target, "z");
}

#[test]
fn self_loop_portal_is_not_a_defect() {
    let regions = vec![region("loop_room", vec![portal("self", "loop_room")])];
    let graph = MapGraph::new(regions).unwrap();
    assert_eq!(graph.validate_links().len(), 0);
}

#[test]
fn defect_message_names_source_portal_and_target() {
    let regions = vec![region("a", vec![portal("p", "z")])];
    let graph = MapGraph::new(regions).unwrap();
    let defects = graph.validate_links();
    assert_eq!(
        defects[0].message(),
        "broken portal 'p' from 'a' to unknown region 'z'"
    );
}
