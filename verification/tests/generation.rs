use worldgraph::dungeon::DungeonRegion;
use worldgraph::worldgen::{generate_region, generate_world, GenerationConfig};

fn ids(v: &[&str]) -> Vec<String> {
    v.iter().map(|s| s.to_string()).collect()
}

fn assert_same_regions(a: &[DungeonRegion], b: &[DungeonRegion]) {
    assert_eq!(a.len(), b.len());
    for (x, y) in a.iter().zip(b.iter()) {
        assert_eq!(x.id, y.id);
        assert_eq!(x.name, y.name);
        assert_eq!(x.description, y.description);
        assert_eq!(format!("{:?}", x.environment), format!("{:?}", y.environment));
        assert_eq!(x.anchor_point, y.anchor_point);
        assert_eq!(x.portals.len(), y.portals.len());
        for (p, q) in x.portals.iter().zip(y.portals.iter()) {
            assert_eq!(p.id, q.id);
            assert_eq!(p.name, q.name);
            assert_eq!(p.leads_to, q.leads_to);
            assert_eq!(p.required_level, q.required_level);
        }
    }
}

// Walks first portals from `start` and says whether `root` is reached.
fn reaches(regions: &[DungeonRegion], start: usize, root: &str) -> bool {
    let mut current = &regions[start];
    for _ in 0..regions.len() + 1 {
        if current.portals.is_empty() {
            return false;
        }
        let target = &current.portals[0].leads_to;
        if target == root {
            return true;
        }
        match regions.iter().find(|r| &r.id == target) {
            Some(next) => current = next,
            None => return false,
        }
    }
    false
}

#[test]
fn same_seed_same_output() {
    let existing = ids(&["nexus", "cave", "tower"]);
    let config = GenerationConfig { seed: Some(42), region_count: 5 };
    let (first, seed1) = generate_world(&existing, &config);
    let (second, seed2) = generate_world(&existing, &config);
    assert_eq!(seed1, 42);
    assert_eq!(seed2, 42);
    assert_same_regions(&first, &second);
}

#[test]
fn every_generated_region_reaches_the_root() {
    let existing = ids(&["nexus"]);
    for count in [0usize, 1, 10] {
        let config = GenerationConfig { seed: Some(7), region_count: count };
        let (regions, _) = generate_world(&existing, &config);
        assert_eq!(regions.len(), count);
        for i in 0..count {
            assert!(reaches(&regions, i, "nexus"), "region {} of {}", i, count);
        }
    }
}

#[test]
fn scenario_three_regions_chained_to_nexus() {
    let existing = ids(&["nexus"]);
    let config = GenerationConfig { seed: Some(42), region_count: 3 };
    let (regions, _) = generate_world(&existing, &config);
    assert_eq!(regions.len(), 3);
    assert_eq!(regions[0].id, "region_0");
    assert_eq!(regions[1].id, "region_1");
    assert_eq!(regions[2].id, "region_2");
    assert_eq!(regions[0].name, "Procedural Region 0");
    assert_eq!(regions[1].name, "Procedural Region 1");
    assert_eq!(regions[2].name, "Procedural Region 2");
    assert_eq!(regions[0].portals.len(), 1);
    assert_eq!(regions[0].portals[0].leads_to, "region_1");
    assert_eq!(regions[1].portals[0].leads_to, "region_2");
    assert_eq!(regions[2].portals[0].leads_to, "nexus");
    for r in &regions {
        for p in &r.portals {
            assert!((1..=9).contains(&p.required_level), "level {}", p.required_level);
        }
    }
    let (again, _) = generate_world(&existing, &config);
    assert_same_regions(&regions, &again);
}

#[test]
fn generated_ids_skip_taken_counters() {
    let existing = ids(&["region_0", "region_2", "nexus"]);
    let config = GenerationConfig { seed: Some(1), region_count: 3 };
    let (regions, _) = generate_world(&existing, &config);
    assert_eq!(regions[0].id, "region_1");
    assert_eq!(regions[1].id, "region_3");
    assert_eq!(regions[2].id, "region_4");
}

#[test]
fn empty_world_generation_has_no_dangling_portal() {
    let existing: Vec<String> = Vec::new();
    let config = GenerationConfig { seed: Some(3), region_count: 3 };
    let (regions, _) = generate_world(&existing, &config);
    assert_eq!(regions.len(), 3);
    // the last region is the terminal root: no outbound portal
    assert_eq!(regions[2].portals.len(), 0);
    assert_eq!(regions[0].portals[0].leads_to, "region_1");
    assert_eq!(regions[1].portals[0].leads_to, "region_2");
}

#[test]
fn absent_seed_is_resolved_and_returned() {
    let existing = ids(&["nexus"]);
    let config = GenerationConfig { seed: None, region_count: 2 };
    let (regions, seed) = generate_world(&existing, &config);
    // the resolved seed reproduces the run
    let config2 = GenerationConfig { seed: Some(seed), region_count: 2 };
    let (again, seed2) = generate_world(&existing, &config2);
    assert_eq!(seed, seed2);
    assert_same_regions(&regions, &again);
}

#[test]
fn ad_hoc_region_links_to_two_distinct_existing_regions() {
    let existing = ids(&["nexus", "cave", "tower", "swamp"]);
    let r = generate_region(&existing, 99);
    assert_eq!(r.id, "region_0");
    assert!(r.name.starts_with("Mystery Zone "));
    assert_eq!(r.portals.len(), 2);
    assert_ne!(r.portals[0].leads_to, r.portals[1].leads_to);
    for p in &r.portals {
        assert!(existing.contains(&p.leads_to));
        assert!((1..=9).contains(&p.required_level));
        assert_eq!(p.id, format!("portal_to_{}", p.leads_to));
        assert_eq!(p.name, format!("Portal to {}", p.leads_to));
    }
    let r2 = generate_region(&existing, 99);
    assert_eq!(r.id, r2.id);
    assert_eq!(r.name, r2.name);
    assert_eq!(r.portals[0].leads_to, r2.portals[0].leads_to);
    assert_eq!(r.portals[1].leads_to, r2.portals[1].leads_to);
}

#[test]
fn draws_vary_with_seed_and_position() {
    let existing = ids(&["nexus"]);
    let config = GenerationConfig { seed: Some(11), region_count: 12 };
    let (regions, _) = generate_world(&existing, &config);
    let levels: Vec<u32> = regions.iter().map(|r| r.portals[0].required_level).collect();
    assert!(levels.iter().any(|l| *l != levels[0]), "levels all equal: {:?}", levels);

    let config2 = GenerationConfig { seed: Some(12), region_count: 12 };
    let (regions2, _) = generate_world(&existing, &config2);
    let levels2: Vec<u32> = regions2.iter().map(|r| r.portals[0].required_level).collect();
    assert_ne!(levels, levels2, "two seeds gave one level sequence");
}

#[test]
fn ad_hoc_region_with_one_existing_region_gets_one_portal() {
    let existing = ids(&["nexus"]);
    let r = generate_region(&existing, 5);
    assert_eq!(r.portals.len(), 1);
    assert_eq!(r.portals[0].leads_to, "nexus");
}

#[test]
fn ad_hoc_region_with_no_existing_regions_gets_no_portal() {
    let existing: Vec<String> = Vec::new();
    let r = generate_region(&existing, 5);
    assert_eq!(r.id, "region_0");
    assert_eq!(r.portals.len(), 0);
}
