//! The canonical world-content records: regions, portals and environment
//! tags, together with their mathematical views.

use vstd::prelude::*;

verus! {

/// The enumerated environment tag of a region.
#[derive(Clone, Copy, Debug, PartialEq, Eq, Structural)]
pub enum EnvironmentType {
    Fantasy,
    Technology,
    RealLife,
    Hybrid,
}

/// A directed, level-gated connection from its owning region to the region
/// named by `leads_to`.
#[derive(Debug, Clone)]
pub struct Portal {
    pub id: String,
    pub name: String,
    pub leads_to: String,
    pub required_level: u32,
}

/// The mathematical value of a [`Portal`].
#[verifier::ext_equal]
pub ghost struct PortalView {
    pub id: Seq<char>,
    pub name: Seq<char>,
    pub leads_to: Seq<char>,
    pub required_level: u32,
}

impl View for Portal {
    type V = PortalView;

    open spec fn view(&self) -> PortalView {
        PortalView {
            id: self.id@,
            name: self.name@,
            leads_to: self.leads_to@,
            required_level: self.required_level,
        }
    }
}

impl DeepView for Portal {
    type V = PortalView;

    open spec fn deep_view(&self) -> PortalView {
        self.view()
    }
}

/// One place in the world, with its outbound portals. `id` is unique across
/// a loaded set; `anchor_point` optionally names a nexus-side anchor.
#[derive(Debug, Clone)]
pub struct DungeonRegion {
    pub id: String,
    pub name: String,
    pub description: String,
    pub environment: EnvironmentType,
    pub portals: Vec<Portal>,
    pub anchor_point: Option<String>,
}

/// The mathematical value of a [`DungeonRegion`].
#[verifier::ext_equal]
pub ghost struct RegionView {
    pub id: Seq<char>,
    pub name: Seq<char>,
    pub description: Seq<char>,
    pub environment: EnvironmentType,
    pub portals: Seq<PortalView>,
    pub anchor_point: Option<Seq<char>>,
}

impl View for DungeonRegion {
    type V = RegionView;

    open spec fn view(&self) -> RegionView {
        RegionView {
            id: self.id@,
            name: self.name@,
            description: self.description@,
            environment: self.environment,
            portals: self.portals.deep_view(),
            anchor_point: self.anchor_point.deep_view(),
        }
    }
}

impl DeepView for DungeonRegion {
    type V = RegionView;

    open spec fn deep_view(&self) -> RegionView {
        self.view()
    }
}

} // verus!
