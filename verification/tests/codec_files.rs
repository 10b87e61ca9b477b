use worldgraph::artifact::Artifact;
use worldgraph::codec::{
    encode_artifact, encode_region, parse_artifact, parse_region, parse_artifacts, parse_regions,
    LoadError,
};
use worldgraph::dungeon::{DungeonRegion, EnvironmentType, Portal};

fn sample_region() -> DungeonRegion {
    DungeonRegion {
        id: "cave".to_string(),
        name: "Echoing Cave".to_string(),
        description: "Dark and damp.".to_string(),
        environment: EnvironmentType::Fantasy,
        portals: vec![Portal {
            id: "p1".to_string(),
            name: "Mossy Arch".to_string(),
            leads_to: "nexus".to_string(),
            required_level: 4,
        }],
        anchor_point: None,
    }
}

#[test]
fn encode_region_exact_text() {
    let text = encode_region(&sample_region());
    assert_eq!(
        text,
        "id cave\n\
         name Echoing Cave\n\
         description Dark and damp.\n\
         environment Fantasy\n\
         portal p1\n\
         portal_name Mossy Arch\n\
         portal_leads_to nexus\n\
         portal_level 4\n"
    );
}

#[test]
fn encode_escapes_backslash_and_newline() {
    let mut r = sample_region();
    r.description = "line one\nback\\slash".to_string();
    r.portals.clear();
    let text = encode_region(&r);
    assert_eq!(
        text,
        "id cave\n\
         name Echoing Cave\n\
         description line one\\nback\\\\slash\n\
         environment Fantasy\n"
    );
}

#[test]
fn region_round_trip_plain() {
    let r = sample_region();
    let back = parse_region(&encode_region(&r)).unwrap();
    assert_eq!(back.id, r.id);
    assert_eq!(back.name, r.name);
    assert_eq!(back.description, r.description);
    assert_eq!(format!("{:?}", back.environment), format!("{:?}", r.environment));
    assert_eq!(back.anchor_point, r.anchor_point);
    assert_eq!(back.portals.len(), 1);
    assert_eq!(back.portals[0].id, "p1");
    assert_eq!(back.portals[0].name, "Mossy Arch");
    assert_eq!(back.portals[0].leads_to, "nexus");
    assert_eq!(back.portals[0].required_level, 4);
}

#[test]
fn region_round_trip_anchor_and_tricky_text() {
    let mut r = sample_region();
    r.environment = EnvironmentType::Technology;
    r.anchor_point = Some("anchor-7".to_string());
    r.description = "first\nsecond\\third\nportal fake\nanchor fake".to_string();
    r.portals.push(Portal {
        id: "p2".to_string(),
        name: "Grate\nwith newline".to_string(),
        leads_to: "cave".to_string(),
        required_level: 9,
    });
    let back = parse_region(&encode_region(&r)).unwrap();
    assert_eq!(back.description, r.description);
    assert_eq!(back.anchor_point, Some("anchor-7".to_string()));
    assert_eq!(back.portals.len(), 2);
    assert_eq!(back.portals[1].name, "Grate\nwith newline");
    assert_eq!(back.portals[1].required_level, 9);
}

#[test]
fn region_round_trip_absent_anchor_stays_absent() {
    let r = sample_region();
    let back = parse_region(&encode_region(&r)).unwrap();
    assert!(back.anchor_point.is_none());
}

#[test]
fn parse_region_rejects_malformed_text() {
    assert!(parse_region("").is_none());
    assert!(parse_region("id cave\n").is_none());
    assert!(parse_region("id cave\nname X\ndescription d\nenvironment Mars\n").is_none());
    // bad escape in a value
    assert!(parse_region("id ca\\qve\nname X\ndescription d\nenvironment Fantasy\n").is_none());
    // truncated portal group
    assert!(
        parse_region(
            "id cave\nname X\ndescription d\nenvironment Fantasy\nportal p1\n"
        )
        .is_none()
    );
    // portal level out of range
    assert!(
        parse_region(
            "id cave\nname X\ndescription d\nenvironment Fantasy\nportal p1\nportal_name n\nportal_leads_to t\nportal_level 4294967296\n"
        )
        .is_none()
    );
}

fn sample_artifact() -> Artifact {
    Artifact {
        id: "am-1".to_string(),
        name: "Amulet".to_string(),
        description: "Old.".to_string(),
        power: -3,
        magic_affinity: Some(12),
        rarity: "epic".to_string(),
    }
}

#[test]
fn encode_artifact_exact_text() {
    let text = encode_artifact(&sample_artifact());
    assert_eq!(
        text,
        "id am-1\n\
         name Amulet\n\
         description Old.\n\
         power -3\n\
         affinity 12\n\
         rarity epic\n"
    );
}

#[test]
fn artifact_round_trip_with_and_without_affinity() {
    let a = sample_artifact();
    let back = parse_artifact(&encode_artifact(&a)).unwrap();
    assert_eq!(back.id, a.id);
    assert_eq!(back.name, a.name);
    assert_eq!(back.description, a.description);
    assert_eq!(back.power, -3);
    assert_eq!(back.magic_affinity, Some(12));
    assert_eq!(back.rarity, a.rarity);

    let mut b = sample_artifact();
    b.magic_affinity = None;
    b.power = i32::MIN;
    let back2 = parse_artifact(&encode_artifact(&b)).unwrap();
    assert_eq!(back2.magic_affinity, None);
    assert_eq!(back2.power, i32::MIN);
}

#[test]
fn parse_regions_collects_every_file() {
    let files = vec![
        ("cave.region".to_string(), encode_region(&sample_region())),
        (
            "nexus.region".to_string(),
            encode_region(&DungeonRegion {
                id: "nexus".to_string(),
                name: "Nexus".to_string(),
                description: "Hub.".to_string(),
                environment: EnvironmentType::Hybrid,
                portals: vec![],
                anchor_point: None,
            }),
        ),
    ];
    let regions = parse_regions(&files).unwrap();
    assert_eq!(regions.len(), 2);
    assert_eq!(regions[0].id, "cave");
    assert_eq!(regions[1].id, "nexus");
}

#[test]
fn parse_regions_fails_whole_load_naming_the_file() {
    let files = vec![
        ("good.region".to_string(), encode_region(&sample_region())),
        ("bad.region".to_string(), "not a region".to_string()),
    ];
    match parse_regions(&files) {
        Err(LoadError::Malformed(name)) => assert_eq!(name, "bad.region"),
        _ => panic!("expected a malformed-file error"),
    }
}

#[test]
fn parse_artifacts_fails_whole_load_naming_the_file() {
    let files = vec![("junk.artifact".to_string(), "power over 9000".to_string())];
    match parse_artifacts(&files) {
        Err(LoadError::Malformed(name)) => assert_eq!(name, "junk.artifact"),
        _ => panic!("expected a malformed-file error"),
    }
}
