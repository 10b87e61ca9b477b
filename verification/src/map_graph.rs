//! The in-memory world graph: regions keyed by id, adjacency queries, and
//! referential-integrity validation of portal targets.

use vstd::prelude::*;
use vstd::string::StringExecFns;
use crate::dungeon::{DungeonRegion, Portal, PortalView, RegionView};
use crate::text::str_eq;

verus! {

/// Two regions of the input set share an id.
#[derive(Debug)]
pub struct DuplicateIdError {
    pub id: String,
}

/// A dangling portal: `source`'s portal `portal_id` names the region id
/// `missing_target`, which is not in the graph.
pub struct Defect {
    pub source: String,
    pub portal_id: String,
    pub missing_target: String,
}

/// The mathematical value of a [`Defect`].
pub ghost struct DefectView {
    pub source: Seq<char>,
    pub portal_id: Seq<char>,
    pub missing_target: Seq<char>,
}

impl View for Defect {
    type V = DefectView;

    open spec fn view(&self) -> DefectView {
        DefectView {
            source: self.source@,
            portal_id: self.portal_id@,
            missing_target: self.missing_target@,
        }
    }
}

impl DeepView for Defect {
    type V = DefectView;

    open spec fn deep_view(&self) -> DefectView {
        self.view()
    }
}

/// No two regions of `rs` share an id.
pub open spec fn unique_region_ids(rs: Seq<RegionView>) -> bool {
    forall|i: int, j: int| 0 <= i < j < rs.len() ==> rs[i].id != rs[j].id
}

/// Some region of `rs` has id `id`.
pub open spec fn has_region_id(rs: Seq<RegionView>, id: Seq<char>) -> bool {
    exists|i: int| 0 <= i < rs.len() && rs[i].id == id
}

/// The first region of `rs` whose id is `id`, if any.
pub open spec fn find_region(rs: Seq<RegionView>, id: Seq<char>) -> Option<RegionView>
    decreases rs.len(),
{
    if rs.len() == 0 {
        None
    } else if rs[0].id == id {
        Some(rs[0])
    } else {
        find_region(rs.drop_first(), id)
    }
}

/// The defect record for portal `p` of region `r`.
pub open spec fn defect_of(r: RegionView, p: PortalView) -> DefectView {
    DefectView { source: r.id, portal_id: p.id, missing_target: p.leads_to }
}

/// The defects among the first `k` portals of region `r`, in portal order.
pub open spec fn region_defects(rs: Seq<RegionView>, r: RegionView, k: int) -> Seq<DefectView>
    decreases k,
{
    if k <= 0 {
        Seq::empty()
    } else {
        region_defects(rs, r, k - 1) + if !has_region_id(rs, r.portals[k - 1].leads_to) {
            seq![defect_of(r, r.portals[k - 1])]
        } else {
            Seq::empty()
        }
    }
}

/// The defects of the first `k` regions of `rs`, regions in order, portals
/// in order within each region.
pub open spec fn graph_defects(rs: Seq<RegionView>, k: int) -> Seq<DefectView>
    decreases k,
{
    if k <= 0 {
        Seq::empty()
    } else {
        graph_defects(rs, k - 1) + region_defects(rs, rs[k - 1], rs[k - 1].portals.len() as int)
    }
}

/// All dangling-portal defects of the region set `rs`.
pub open spec fn defects(rs: Seq<RegionView>) -> Seq<DefectView> {
    graph_defects(rs, rs.len() as int)
}

/// The world graph. Built once from a fixed set of regions whose ids are
/// unique; read-only afterwards.
pub struct MapGraph {
    regions: Vec<DungeonRegion>,
}

impl View for MapGraph {
    type V = Seq<RegionView>;

    closed spec fn view(&self) -> Seq<RegionView> {
        self.regions.deep_view()
    }
}

impl MapGraph {
    /// The graph's ids are unique; established by [`MapGraph::new`] and kept
    /// by every method.
    pub open spec fn wf(&self) -> bool {
        unique_region_ids(self@)
    }

    /// Build the graph from a snapshot of loaded regions. Fails with a
    /// duplicate-id error, naming the id, when two input regions share one;
    /// succeeds exactly on inputs with unique ids and keeps them unchanged.
    pub fn new(regions: Vec<DungeonRegion>) -> (r: Result<MapGraph, DuplicateIdError>)
        ensures
            match r {
                Ok(g) => {
                    &&& g@ == regions.deep_view()
                    &&& g.wf()
                    &&& unique_region_ids(regions.deep_view())
                },
                Err(e) => {
                    &&& !unique_region_ids(regions.deep_view())
                    &&& exists|i: int, j: int|
                        0 <= i < j < regions.deep_view().len()
                            && regions.deep_view()[i].id == regions.deep_view()[j].id
                            && e.id@ == regions.deep_view()[i].id
                },
            },
    {
        let ghost rs = regions.deep_view();
        let n = regions.len();
        let mut i: usize = 0;
        while i < n
            invariant
                i <= n,
                n == rs.len(),
                rs == regions.deep_view(),
                forall|a: int, b: int| 0 <= a < b < i ==> rs[a].id != rs[b].id,
            decreases n - i,
        {
            let mut j: usize = 0;
            while j < i
                invariant
                    j <= i < n,
                    n == rs.len(),
                    rs == regions.deep_view(),
                    forall|a: int| 0 <= a < j ==> rs[a].id != rs[i as int].id,
                decreases i - j,
            {
                if str_eq(regions[j].id.as_str(), regions[i].id.as_str()) {
                    let id = regions[j].id.clone();
                    proof {
                        assert(0 <= j < i < rs.len() && rs[j as int].id == rs[i as int].id
                            && id@ == rs[j as int].id);
                    }
                    return Err(DuplicateIdError { id });
                }
                j = j + 1;
            }
            i = i + 1;
        }
        Ok(MapGraph { regions })
    }

    /// The region with id `id`, or `None` when no region has that id.
    pub fn get_region(&self, id: &str) -> (r: Option<&DungeonRegion>)
        ensures
            match r {
                Some(reg) => find_region(self@, id@) == Some(reg.deep_view()),
                None => find_region(self@, id@) == None::<RegionView>,
            },
            r is Some <==> has_region_id(self@, id@),
    {
        let n = self.regions.len();
        let mut i: usize = 0;
        while i < n
            invariant
                i <= n,
                n == self@.len(),
                forall|a: int| 0 <= a < i ==> self@[a].id != id@,
            decreases n - i,
        {
            if str_eq(self.regions[i].id.as_str(), id) {
                proof {
                    lemma_find_region_at(self@, id@, i as int);
                }
                return Some(&self.regions[i]);
            }
            i = i + 1;
        }
        proof {
            lemma_find_region_none(self@, id@);
        }
        None
    }

    /// The outbound portal list of the region with id `id`, or `None` when
    /// no region has that id.
    pub fn get_portals(&self, from_region: &str) -> (r: Option<&Vec<Portal>>)
        ensures
            match r {
                Some(ps) => {
                    &&& find_region(self@, from_region@) is Some
                    &&& ps.deep_view() == find_region(self@, from_region@).unwrap().portals
                },
                None => find_region(self@, from_region@) == None::<RegionView>,
            },
            r is Some <==> has_region_id(self@, from_region@),
    {
        let n = self.regions.len();
        let mut i: usize = 0;
        while i < n
            invariant
                i <= n,
                n == self@.len(),
                forall|a: int| 0 <= a < i ==> self@[a].id != from_region@,
            decreases n - i,
        {
            if str_eq(self.regions[i].id.as_str(), from_region) {
                proof {
                    lemma_find_region_at(self@, from_region@, i as int);
                }
                return Some(&self.regions[i].portals);
            }
            i = i + 1;
        }
        proof {
            lemma_find_region_none(self@, from_region@);
        }
        None
    }

    /// Whether some region of the graph has id `target`.
    fn region_id_present(&self, target: &str) -> (b: bool)
        ensures
            b == has_region_id(self@, target@),
    {
        let n = self.regions.len();
        let mut i: usize = 0;
        while i < n
            invariant
                i <= n,
                n == self@.len(),
                forall|a: int| 0 <= a < i ==> self@[a].id != target@,
            decreases n - i,
        {
            if str_eq(self.regions[i].id.as_str(), target) {
                proof {
                    assert(self@[i as int].id == target@);
                }
                return true;
            }
            i = i + 1;
        }
        false
    }

    /// Every (region, portal) pair whose `leads_to` names no region of the
    /// graph yields one defect; pairs with present targets yield none. The
    /// graph is not changed. Defects come in region order, portals in order
    /// within each region.
    pub fn validate_links(&self) -> (out: Vec<Defect>)
        ensures
            out.deep_view() == defects(self@),
    {
        let mut out: Vec<Defect> = Vec::new();
        let n = self.regions.len();
        let mut i: usize = 0;
        while i < n
            invariant
                i <= n,
                n == self@.len(),
                out.deep_view() == graph_defects(self@, i as int),
            decreases n - i,
        {
            let m = self.regions[i].portals.len();
            let mut j: usize = 0;
            while j < m
                invariant
                    j <= m,
                    i < n,
                    n == self@.len(),
                    m == self@[i as int].portals.len(),
                    out.deep_view() == graph_defects(self@, i as int) + region_defects(
                        self@,
                        self@[i as int],
                        j as int,
                    ),
                decreases m - j,
            {
                let p = &self.regions[i].portals[j];
                let ghost pre = out.deep_view();
                proof {
                    assert(self@[i as int].portals[j as int] == p@);
                }
                if !self.region_id_present(p.leads_to.as_str()) {
                    let d = Defect {
                        source: self.regions[i].id.clone(),
                        portal_id: p.id.clone(),
                        missing_target: p.leads_to.clone(),
                    };
                    proof {
                        assert(d@ == defect_of(self@[i as int], self@[i as int].portals[j as int]));
                    }
                    out.push(d);
                    proof {
                        assert(out.deep_view() =~= pre + seq![
                            defect_of(self@[i as int], self@[i as int].portals[j as int]),
                        ]);
                    }
                } else {
                    proof {
                        assert(out.deep_view() =~= pre);
                    }
                }
                proof {
                    assert(region_defects(self@, self@[i as int], j as int + 1) == region_defects(
                        self@,
                        self@[i as int],
                        j as int,
                    ) + if !has_region_id(self@, self@[i as int].portals[j as int].leads_to) {
                        seq![defect_of(self@[i as int], self@[i as int].portals[j as int])]
                    } else {
                        Seq::empty()
                    });
                    assert(out.deep_view() =~= graph_defects(self@, i as int) + region_defects(
                        self@,
                        self@[i as int],
                        j as int + 1,
                    ));
                }
                j = j + 1;
            }
            proof {
                assert(out.deep_view() =~= graph_defects(self@, i as int + 1));
            }
            i = i + 1;
        }
        out
    }
}

impl Defect {
    /// A self-describing diagnostic line naming the source region, the
    /// portal, and the missing target.
    pub fn message(&self) -> (s: String)
        ensures
            s@ == "broken portal '"@ + self.portal_id@ + "' from '"@ + self.source@
                + "' to unknown region '"@ + self.missing_target@ + "'"@,
    {
        let mut s = String::new();
        s.append("broken portal '");
        s.append(self.portal_id.as_str());
        s.append("' from '");
        s.append(self.source.as_str());
        s.append("' to unknown region '");
        s.append(self.missing_target.as_str());
        s.append("'");
        s
    }
}

/// When the first `i` regions do not carry id `id` and region `i` does,
/// the lookup finds region `i`.
pub proof fn lemma_find_region_at(rs: Seq<RegionView>, id: Seq<char>, i: int)
    requires
        0 <= i < rs.len(),
        rs[i].id == id,
        forall|j: int| 0 <= j < i ==> rs[j].id != id,
    ensures
        find_region(rs, id) == Some(rs[i]),
    decreases i,
{
    if i > 0 {
        lemma_find_region_at(rs.drop_first(), id, i - 1);
    }
}

/// When no region carries id `id`, the lookup finds nothing.
pub proof fn lemma_find_region_none(rs: Seq<RegionView>, id: Seq<char>)
    requires
        forall|j: int| 0 <= j < rs.len() ==> rs[j].id != id,
    ensures
        find_region(rs, id) == None::<RegionView>,
    decreases rs.len(),
{
    if rs.len() > 0 {
        lemma_find_region_none(rs.drop_first(), id);
    }
}

/// A set of regions with unique ids, once built into a graph, gives back
/// each of its records unchanged: looking up the id of any input region
/// finds exactly that region.
pub proof fn lemma_unique_ids_find_original(rs: Seq<RegionView>, i: int)
    requires
        unique_region_ids(rs),
        0 <= i < rs.len(),
    ensures
        find_region(rs, rs[i].id) == Some(rs[i]),
{
    lemma_find_region_at(rs, rs[i].id, i);
}

proof fn lemma_region_defects_empty(rs: Seq<RegionView>, r: RegionView, m: int)
    requires
        forall|j: int| 0 <= j < m ==> has_region_id(rs, #[trigger] r.portals[j].leads_to),
    ensures
        region_defects(rs, r, m) == Seq::<DefectView>::empty(),
    decreases m,
{
    if m > 0 {
        lemma_region_defects_empty(rs, r, m - 1);
        assert(region_defects(rs, r, m) =~= Seq::<DefectView>::empty());
    }
}

/// A graph in which every portal's target id is present yields no defects.
pub proof fn lemma_no_dangling_no_defects(rs: Seq<RegionView>)
    requires
        forall|i: int, j: int|
            0 <= i < rs.len() && 0 <= j < rs[i].portals.len() ==> has_region_id(
                rs,
                #[trigger] rs[i].portals[j].leads_to,
            ),
    ensures
        defects(rs) == Seq::<DefectView>::empty(),
{
    lemma_graph_defects_empty(rs, rs.len() as int);
}

proof fn lemma_graph_defects_empty(rs: Seq<RegionView>, k: int)
    requires
        k <= rs.len(),
        forall|i: int, j: int|
            0 <= i < rs.len() && 0 <= j < rs[i].portals.len() ==> has_region_id(
                rs,
                #[trigger] rs[i].portals[j].leads_to,
            ),
    ensures
        graph_defects(rs, k) == Seq::<DefectView>::empty(),
    decreases k,
{
    if k > 0 {
        lemma_graph_defects_empty(rs, k - 1);
        lemma_region_defects_empty(rs, rs[k - 1], rs[k - 1].portals.len() as int);
        assert(graph_defects(rs, k) =~= Seq::<DefectView>::empty());
    }
}

proof fn lemma_region_defect_fields(rs: Seq<RegionView>, r: RegionView, m: int, k: int)
    requires
        0 <= k < region_defects(rs, r, m).len(),
    ensures
        region_defects(rs, r, m)[k].source == r.id,
        !has_region_id(rs, region_defects(rs, r, m)[k].missing_target),
    decreases m,
{
    if m > 0 {
        let prefix = region_defects(rs, r, m - 1);
        if k < prefix.len() {
            lemma_region_defect_fields(rs, r, m - 1, k);
        }
    }
}

proof fn lemma_graph_defect_fields(rs: Seq<RegionView>, n: int, k: int)
    requires
        n <= rs.len(),
        0 <= k < graph_defects(rs, n).len(),
    ensures
        has_region_id(rs, graph_defects(rs, n)[k].source),
        !has_region_id(rs, graph_defects(rs, n)[k].missing_target),
    decreases n,
{
    if n > 0 {
        let prefix = graph_defects(rs, n - 1);
        if k < prefix.len() {
            lemma_graph_defect_fields(rs, n - 1, k);
        } else {
            lemma_region_defect_fields(
                rs,
                rs[n - 1],
                rs[n - 1].portals.len() as int,
                k - prefix.len(),
            );
            assert(rs[n - 1].id == rs[n - 1].id && 0 <= n - 1 < rs.len());
        }
    }
}

/// Only missing targets are defects: every reported defect names a source
/// region that is in the graph and a target id that is not. In particular a
/// self-loop portal, whose target is its own (present) source region, never
/// appears in the output.
pub proof fn lemma_self_loop_never_defect(rs: Seq<RegionView>, k: int)
    requires
        0 <= k < defects(rs).len(),
    ensures
        has_region_id(rs, defects(rs)[k].source),
        !has_region_id(rs, defects(rs)[k].missing_target),
        defects(rs)[k].missing_target != defects(rs)[k].source,
{
    lemma_graph_defect_fields(rs, rs.len() as int, k);
}

} // verus!
