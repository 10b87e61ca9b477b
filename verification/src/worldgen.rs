//! The procedural world generator: produces batches of new regions with
//! fresh, collision-checked ids, seeded randomness, and portals that chain
//! every new region back to the designated root.

use vstd::prelude::*;
use crate::dungeon::{DungeonRegion, EnvironmentType, Portal, PortalView, RegionView};
use crate::rng::{rng_draw_of, SeededRng};
use crate::text::{chars_string, decimal, lemma_decimal_injective, push_decimal, str_chars, str_eq};

verus! {

/// Some id of `ex` is `id`.
pub open spec fn id_taken(ex: Seq<Seq<char>>, id: Seq<char>) -> bool {
    exists|i: int| 0 <= i < ex.len() && ex[i] == id
}

/// The id given to the region with counter `n`.
pub open spec fn region_id_chars(n: nat) -> Seq<char> {
    "region_"@ + decimal(n)
}

/// Appending to a common prefix is injective.
proof fn lemma_prefix_cancel(p: Seq<char>, a: Seq<char>, b: Seq<char>)
    requires
        p + a == p + b,
    ensures
        a == b,
{
    assert(a =~= (p + a).skip(p.len() as int));
    assert(b =~= (p + b).skip(p.len() as int));
}

/// Distinct counters give distinct region ids.
pub proof fn lemma_region_id_injective(a: nat, b: nat)
    requires
        region_id_chars(a) == region_id_chars(b),
    ensures
        a == b,
{
    lemma_prefix_cancel("region_"@, decimal(a), decimal(b));
    lemma_decimal_injective(a, b);
}

/// The first counter at or after `n` whose region id is not in `ex`,
/// searching at most `fuel` candidates (and defaulting to `n` past that).
pub open spec fn first_free_from(ex: Seq<Seq<char>>, n: nat, fuel: nat) -> nat
    decreases fuel,
{
    if fuel == 0 {
        n
    } else if !id_taken(ex, region_id_chars(n)) {
        n
    } else {
        first_free_from(ex, (n + 1) as nat, (fuel - 1) as nat)
    }
}

/// The counter chosen for a new region when counters below `n` are spent:
/// the first one at or after `n` whose id is free. The search budget of
/// `ex.len() + 1` always suffices (see `lemma_free_counter`).
pub open spec fn free_counter(ex: Seq<Seq<char>>, n: nat) -> nat {
    first_free_from(ex, n, (ex.len() + 1) as nat)
}

/// Among any `ex.len() + 1` consecutive counters, at least one region id
/// is free: the candidate ids are pairwise distinct and `ex` is too short
/// to hold them all.
proof fn lemma_some_counter_free(ex: Seq<Seq<char>>, n: nat)
    ensures
        exists|m: nat| n <= m <= n + ex.len() && !id_taken(ex, region_id_chars(m)),
    decreases ex.len(),
{
    if id_taken(ex, region_id_chars(n)) {
        let i = choose|i: int| 0 <= i < ex.len() && ex[i] == region_id_chars(n);
        let ex2 = ex.remove(i);
        lemma_some_counter_free(ex2, (n + 1) as nat);
        let m = choose|m: nat|
            n + 1 <= m <= n + 1 + ex2.len() && !id_taken(ex2, region_id_chars(m));
        assert(!id_taken(ex, region_id_chars(m))) by {
            if id_taken(ex, region_id_chars(m)) {
                let j = choose|j: int| 0 <= j < ex.len() && ex[j] == region_id_chars(m);
                if j == i {
                    lemma_region_id_injective(m, n);
                } else if j < i {
                    assert(ex2[j] == ex[j]);
                } else {
                    assert(ex2[j - 1] == ex[j]);
                }
            }
        }
        assert(n <= m <= n + ex.len() && !id_taken(ex, region_id_chars(m)));
    } else {
        assert(n <= n <= n + ex.len() && !id_taken(ex, region_id_chars(n)));
    }
}

/// When a free counter exists within the budget, the search returns the
/// least free counter at or after `n`.
proof fn lemma_first_free_from(ex: Seq<Seq<char>>, n: nat, fuel: nat)
    requires
        exists|m: nat| n <= m < n + fuel && !id_taken(ex, region_id_chars(m)),
    ensures
        n <= first_free_from(ex, n, fuel) < n + fuel,
        !id_taken(ex, region_id_chars(first_free_from(ex, n, fuel))),
        forall|m: nat|
            n <= m < first_free_from(ex, n, fuel) ==> id_taken(ex, #[trigger] region_id_chars(m)),
    decreases fuel,
{
    if id_taken(ex, region_id_chars(n)) {
        let m0 = choose|m: nat| n <= m < n + fuel && !id_taken(ex, region_id_chars(m));
        assert(n + 1 <= m0 < (n + 1) + (fuel - 1));
        lemma_first_free_from(ex, (n + 1) as nat, (fuel - 1) as nat);
    }
}

/// The chosen counter is free, lies within `ex.len()` of the start, and
/// every counter before it is taken.
pub proof fn lemma_free_counter(ex: Seq<Seq<char>>, n: nat)
    ensures
        n <= free_counter(ex, n) <= n + ex.len(),
        !id_taken(ex, region_id_chars(free_counter(ex, n))),
        forall|m: nat|
            n <= m < free_counter(ex, n) ==> id_taken(ex, #[trigger] region_id_chars(m)),
{
    lemma_some_counter_free(ex, n);
    lemma_first_free_from(ex, n, (ex.len() + 1) as nat);
}

/// The id `region_<n>`, as a string.
pub fn make_region_id(n: u64) -> (s: String)
    ensures
        s@ == region_id_chars(n as nat),
{
    let mut v = str_chars("region_");
    push_decimal(&mut v, n);
    chars_string(&v)
}

/// Whether `target` is one of the ids in `ids`.
pub fn contains_id(ids: &Vec<String>, target: &str) -> (b: bool)
    ensures
        b == id_taken(ids.deep_view(), target@),
{
    let n = ids.len();
    let mut i: usize = 0;
    while i < n
        invariant
            i <= n,
            n == ids@.len(),
            forall|a: int| 0 <= a < i ==> ids.deep_view()[a] != target@,
        decreases n - i,
    {
        if str_eq(ids[i].as_str(), target) {
            proof {
                assert(ids.deep_view()[i as int] == target@);
            }
            return true;
        }
        i = i + 1;
    }
    false
}

/// The least counter at or after `start` whose region id is not in
/// `existing`, found by checking the `existing.len() + 1` candidates that
/// must contain a free one.
#[verifier::loop_isolation(false)]
fn next_free_counter(existing: &Vec<String>, start: u64) -> (c: u64)
    requires
        start + existing@.len() + 1 <= u64::MAX,
    ensures
        c == free_counter(existing.deep_view(), start as nat),
        start <= c <= start + existing@.len(),
        !id_taken(existing.deep_view(), region_id_chars(c as nat)),
{
    let ghost ex = existing.deep_view();
    let n = existing.len();
    let mut k: u64 = 0;
    while k <= n as u64
        invariant
            k <= n as u64 + 1,
            forall|m: nat|
                start <= m < start + k ==> id_taken(ex, #[trigger] region_id_chars(m)),
        decreases n as u64 + 1 - k,
    {
        let cand = make_region_id(start + k);
        if !contains_id(existing, cand.as_str()) {
            proof {
                lemma_free_counter(ex, start as nat);
                let r = free_counter(ex, start as nat);
                assert(!id_taken(ex, region_id_chars((start + k) as nat)));
                if r < start + k {
                    assert(id_taken(ex, region_id_chars(r)));
                    assert(false);
                }
                if r > start + k {
                    assert(id_taken(ex, region_id_chars((start + k) as nat)));
                    assert(false);
                }
            }
            return start + k;
        }
        k = k + 1;
    }
    proof {
        lemma_free_counter(ex, start as nat);
        let r = free_counter(ex, start as nat);
        assert(id_taken(ex, region_id_chars(r)));
        assert(false);
    }
    0
}

/// What one generation run is asked to produce. An absent seed lets the
/// generator draw a fresh one; the resolved seed is always returned so
/// that a run can be reproduced.
pub struct GenerationConfig {
    pub seed: Option<u64>,
    pub region_count: usize,
}

/// The counter of the `i`-th region of a run against existing ids `ex`:
/// counters are taken in increasing order, skipping taken ids, so region
/// ids are fresh and mutually distinct.
pub open spec fn gen_counter(ex: Seq<Seq<char>>, i: nat) -> nat
    decreases i,
{
    if i == 0 {
        free_counter(ex, 0)
    } else {
        free_counter(ex, (gen_counter(ex, (i - 1) as nat) + 1) as nat)
    }
}

/// The draw bounds consumed by the first `i` generated regions: one
/// environment draw and one level draw each.
pub open spec fn gen_history(i: nat) -> Seq<(u64, u64)>
    decreases i,
{
    if i == 0 {
        Seq::empty()
    } else {
        gen_history((i - 1) as nat) + seq![(0u64, 4u64), (1u64, 10u64)]
    }
}

/// The environment draw of region `i`.
pub open spec fn env_draw(seed: u64, i: nat) -> u64 {
    rng_draw_of(seed, gen_history(i), 0, 4)
}

/// The portal-level draw of region `i`.
pub open spec fn level_draw(seed: u64, i: nat) -> u64 {
    rng_draw_of(seed, gen_history(i).push((0u64, 4u64)), 1, 10)
}

/// The environment tag for a draw in `0 .. 4`.
pub open spec fn env_of_index(k: u64) -> EnvironmentType {
    if k == 0 {
        EnvironmentType::Fantasy
    } else if k == 1 {
        EnvironmentType::Technology
    } else if k == 2 {
        EnvironmentType::RealLife
    } else {
        EnvironmentType::Hybrid
    }
}

/// The root id a generation run links its last region back to: the
/// conventional `nexus` when present among the existing ids, otherwise the
/// first existing id, otherwise none (an empty world gets no loop-back
/// portal rather than a dangling one).
pub open spec fn root_of(ex: Seq<Seq<char>>) -> Option<Seq<char>> {
    if id_taken(ex, "nexus"@) {
        Some("nexus"@)
    } else if ex.len() > 0 {
        Some(ex[0])
    } else {
        None
    }
}

/// Where region `i` of a run of `count` links to: the next generated
/// region, or the root for the last one.
pub open spec fn gen_target(ex: Seq<Seq<char>>, count: nat, i: nat) -> Option<Seq<char>> {
    if i + 1 < count {
        Some(region_id_chars(gen_counter(ex, (i + 1) as nat)))
    } else {
        root_of(ex)
    }
}

/// The one outbound portal of generated region `i`, leading to `t`.
pub open spec fn gen_portal_view(seed: u64, i: nat, t: Seq<char>) -> PortalView {
    PortalView {
        id: "portal_"@ + decimal(i) + "_to_next"@,
        name: "Portal to "@ + t,
        leads_to: t,
        required_level: level_draw(seed, i) as u32,
    }
}

/// Generated region `i` of a run of `count` regions against `ex`.
pub open spec fn gen_region_view(ex: Seq<Seq<char>>, seed: u64, count: nat, i: nat) -> RegionView {
    RegionView {
        id: region_id_chars(gen_counter(ex, i)),
        name: "Procedural Region "@ + decimal(i),
        description: "A dynamically generated region."@,
        environment: env_of_index(env_draw(seed, i)),
        portals: match gen_target(ex, count, i) {
            Some(t) => seq![gen_portal_view(seed, i, t)],
            None => Seq::empty(),
        },
        anchor_point: None,
    }
}

/// The whole output of one generation run: a pure function of the existing
/// ids, the seed and the region count, which is what makes runs with equal
/// inputs reproducible.
pub open spec fn gen_world_view(ex: Seq<Seq<char>>, seed: u64, count: nat) -> Seq<RegionView> {
    Seq::new(count, |i: int| gen_region_view(ex, seed, count, i as nat))
}

/// The environment tag for a draw in `0 .. 4`, as executable code.
fn env_from_index(k: u64) -> (e: EnvironmentType)
    ensures
        e == env_of_index(k),
{
    if k == 0 {
        EnvironmentType::Fantasy
    } else if k == 1 {
        EnvironmentType::Technology
    } else if k == 2 {
        EnvironmentType::RealLife
    } else {
        EnvironmentType::Hybrid
    }
}

/// Generate `config.region_count` new regions against the ids in
/// `existing_ids`, chained so every new region stays connected to the
/// root, and return them with the resolved seed. The output is exactly
/// `gen_world_view` of the inputs and that seed: two runs with the same
/// existing ids, seed and count produce identical regions.
#[verifier::loop_isolation(false)]
pub fn generate_world(existing_ids: &Vec<String>, config: &GenerationConfig) -> (r: (
    Vec<DungeonRegion>,
    u64,
))
    requires
        (config.region_count as int + 1) * (existing_ids@.len() as int + 1) <= u64::MAX,
    ensures
        r.0.deep_view() == gen_world_view(
            existing_ids.deep_view(),
            r.1,
            config.region_count as nat,
        ),
        config.seed matches Some(s) ==> r.1 == s,
        forall|k: int, j: int|
            0 <= k < r.0.deep_view().len() && 0 <= j < r.0.deep_view()[k].portals.len() ==> 1 <= (
            #[trigger] r.0.deep_view()[k].portals[j]).required_level <= 9,
{
    let seed: u64 = match config.seed {
        Some(s) => s,
        None => crate::rng::fresh_seed(),
    };
    let ghost ex = existing_ids.deep_view();
    let count = config.region_count;
    let ghost len_ex = ex.len() as int;

    let mut ids: Vec<String> = Vec::new();
    let mut cur: u64 = 0;
    let mut i: usize = 0;
    while i < count
        invariant
            i <= count,
            ids@.len() == i,
            cur as int <= i as int * (len_ex + 1),
            i == 0 ==> cur == 0,
            i > 0 ==> cur as int == gen_counter(ex, (i - 1) as nat) + 1,
            forall|k: int|
                0 <= k < i ==> ids.deep_view()[k] == region_id_chars(
                    gen_counter(ex, k as nat),
                ),
        decreases count - i,
    {
        proof {
            assert(i as int * (len_ex + 1) + (len_ex + 1) == (i as int + 1) * (len_ex + 1))
                by (nonlinear_arith);
            assert((i as int + 1) * (len_ex + 1) <= (count as int + 1) * (len_ex + 1))
                by (nonlinear_arith)
                requires
                    0 <= len_ex,
                    i < count,
            ;
        }
        let c = next_free_counter(existing_ids, cur);
        let id = make_region_id(c);
        proof {
            assert(c as nat == gen_counter(ex, i as nat));
        }
        let ghost ids_pre = ids.deep_view();
        ids.push(id);
        proof {
            assert(ids.deep_view() =~= ids_pre.push(id@));
            assert(ids.deep_view()[i as int] == region_id_chars(gen_counter(ex, i as nat)));
        }
        cur = c + 1;
        proof {
            assert(cur as int <= (i as int + 1) * (len_ex + 1)) by {
                assert(c as int <= i as int * (len_ex + 1) + len_ex);
                assert(i as int * (len_ex + 1) + (len_ex + 1) == (i as int + 1) * (len_ex + 1))
                    by (nonlinear_arith);
            }
        }
        i = i + 1;
    }

    let root: Option<String> = if contains_id(existing_ids, "nexus") {
        Some("nexus".to_owned())
    } else if existing_ids.len() > 0 {
        Some(existing_ids[0].clone())
    } else {
        None
    };
    proof {
        assert(root.deep_view() == root_of(ex));
    }

    let mut rng = SeededRng::new(seed);
    let mut out: Vec<DungeonRegion> = Vec::new();
    let mut i: usize = 0;
    while i < count
        invariant
            i <= count,
            out@.len() == i,
            ids@.len() == count,
            rng.seed_val() == seed,
            rng.draws() == gen_history(i as nat),
            root.deep_view() == root_of(ex),
            forall|k: int|
                0 <= k < count ==> ids.deep_view()[k] == region_id_chars(
                    gen_counter(ex, k as nat),
                ),
            forall|k: int|
                0 <= k < i ==> out.deep_view()[k] == gen_region_view(
                    ex,
                    seed,
                    count as nat,
                    k as nat,
                ),
            forall|k: int, j: int|
                0 <= k < i && 0 <= j < out.deep_view()[k].portals.len() ==> 1 <= (
                #[trigger] out.deep_view()[k].portals[j]).required_level <= 9,
        decreases count - i,
    {
        let e = rng.draw(0, 4);
        let lvl = rng.draw(1, 10);
        proof {
            assert(e == env_draw(seed, i as nat));
            assert(lvl == level_draw(seed, i as nat));
            assert(rng.draws() =~= gen_history((i + 1) as nat));
        }

        let mut name_chars = str_chars("Procedural Region ");
        push_decimal(&mut name_chars, i as u64);
        let name = chars_string(&name_chars);

        let description = "A dynamically generated region.".to_owned();

        let target: Option<String> = if i + 1 < count {
            let t = ids[i + 1].clone();
            proof {
                assert(ids.deep_view()[i as int + 1] == region_id_chars(
                    gen_counter(ex, (i + 1) as nat),
                ));
                assert(t@ == region_id_chars(gen_counter(ex, (i + 1) as nat)));
            }
            Some(t)
        } else {
            match &root {
                Some(rt) => Some(rt.clone()),
                None => None,
            }
        };
        proof {
            assert(target.deep_view() == gen_target(ex, count as nat, i as nat));
        }

        let portals: Vec<Portal> = match target {
            Some(t) => {
                let mut pid_chars = str_chars("portal_");
                push_decimal(&mut pid_chars, i as u64);
                let mut pid_tail = str_chars("_to_next");
                pid_chars.append(&mut pid_tail);
                let pid = chars_string(&pid_chars);

                let mut pname_chars = str_chars("Portal to ");
                let mut target_chars = str_chars(t.as_str());
                pname_chars.append(&mut target_chars);
                let pname = chars_string(&pname_chars);

                let mut ps: Vec<Portal> = Vec::new();
                ps.push(
                    Portal { id: pid, name: pname, leads_to: t, required_level: lvl as u32 },
                );
                ps
            },
            None => Vec::new(),
        };

        let region = DungeonRegion {
            id: ids[i].clone(),
            name,
            description,
            environment: env_from_index(e),
            portals,
            anchor_point: None,
        };
        let ghost out_pre = out.deep_view();
        out.push(region);
        proof {
            assert(out.deep_view() =~= out_pre.push(region.deep_view()));
            let ghost rv = gen_region_view(ex, seed, count as nat, i as nat);
            let ghost got = out.deep_view()[i as int];
            assert(got.id == rv.id) by {
                assert(ids.deep_view()[i as int] == region_id_chars(gen_counter(ex, i as nat)));
            }
            assert(got.name == rv.name);
            assert(got.description == rv.description);
            assert(got.environment == rv.environment);
            assert(got.anchor_point == rv.anchor_point);
            assert(got.portals =~= rv.portals);
            assert(got =~= rv);
            assert(out.deep_view()[i as int] == gen_region_view(
                ex,
                seed,
                count as nat,
                i as nat,
            ));
            assert(forall|j: int|
                0 <= j < got.portals.len() ==> 1 <= (#[trigger] got.portals[j]).required_level
                    <= 9);
        }
        i = i + 1;
    }
    proof {
        assert(out.deep_view() =~= gen_world_view(ex, seed, count as nat));
    }
    (out, seed)
}

/// The draw bounds consumed before the portal draws of an ad-hoc region:
/// its name draw and its environment draw.
pub open spec fn single_prefix_history() -> Seq<(u64, u64)> {
    seq![(1u64, 100u64), (0u64, 4u64)]
}

/// A portal of an ad-hoc region, leading to the existing id `t`.
pub open spec fn single_portal_view(t: Seq<char>, lvl: u64) -> PortalView {
    PortalView {
        id: "portal_to_"@ + t,
        name: "Portal to "@ + t,
        leads_to: t,
        required_level: lvl as u32,
    }
}

/// The portals of an ad-hoc region: none when there is nothing to link
/// to, one for a single existing region, else two to distinct existing
/// regions picked at random.
pub open spec fn single_portals_view(ex: Seq<Seq<char>>, seed: u64) -> Seq<PortalView> {
    let e = ex.len();
    if e == 0 {
        Seq::empty()
    } else if e == 1 {
        seq![single_portal_view(ex[0], rng_draw_of(seed, single_prefix_history(), 1, 10))]
    } else {
        let i1 = rng_draw_of(seed, single_prefix_history(), 0, e as u64);
        let h3 = single_prefix_history().push((0u64, e as u64));
        let i2r = rng_draw_of(seed, h3, 0, (e - 1) as u64);
        let h4 = h3.push((0u64, (e - 1) as u64));
        let i2: int = if i2r >= i1 {
            i2r + 1
        } else {
            i2r as int
        };
        let l1 = rng_draw_of(seed, h4, 1, 10);
        let l2 = rng_draw_of(seed, h4.push((1u64, 10u64)), 1, 10);
        seq![single_portal_view(ex[i1 as int], l1), single_portal_view(ex[i2 as int], l2)]
    }
}

/// The ad-hoc region generated against `ex` from `seed`.
pub open spec fn single_region_view(ex: Seq<Seq<char>>, seed: u64) -> RegionView {
    RegionView {
        id: region_id_chars(free_counter(ex, 0)),
        name: "Mystery Zone "@ + decimal(rng_draw_of(seed, Seq::empty(), 1, 100) as nat),
        description: "A procedurally generated zone of strangeness and wonder."@,
        environment: env_of_index(rng_draw_of(seed, seq![(1u64, 100u64)], 0, 4)),
        portals: single_portals_view(ex, seed),
        anchor_point: None,
    }
}

/// A portal of an ad-hoc region, leading to `target`, as executable code.
fn make_single_portal(target: &String, lvl: u64) -> (p: Portal)
    requires
        lvl < 10,
    ensures
        p@ == single_portal_view(target@, lvl),
{
    let mut pid_chars = str_chars("portal_to_");
    let mut target_chars = str_chars(target.as_str());
    pid_chars.append(&mut target_chars);
    let pid = chars_string(&pid_chars);

    let mut pname_chars = str_chars("Portal to ");
    let mut target_chars2 = str_chars(target.as_str());
    pname_chars.append(&mut target_chars2);
    let pname = chars_string(&pname_chars);

    Portal { id: pid, name: pname, leads_to: target.clone(), required_level: lvl as u32 }
}

/// Generate one ad-hoc region against `existing_ids` from `seed`: a fresh
/// collision-checked id, a drawn name and environment, and portals into
/// up to two distinct existing regions picked at random. The output is
/// exactly `single_region_view` of the inputs: reproducible from the
/// seed; its id is fresh and its portals never dangle.
pub fn generate_region(existing_ids: &Vec<String>, seed: u64) -> (r: DungeonRegion)
    requires
        existing_ids@.len() + 1 <= u64::MAX,
    ensures
        r.deep_view() == single_region_view(existing_ids.deep_view(), seed),
        !id_taken(existing_ids.deep_view(), r.deep_view().id),
        forall|j: int|
            0 <= j < r.deep_view().portals.len() ==> id_taken(
                existing_ids.deep_view(),
                (#[trigger] r.deep_view().portals[j]).leads_to,
            ),
        forall|j: int|
            0 <= j < r.deep_view().portals.len() ==> 1 <= (
            #[trigger] r.deep_view().portals[j]).required_level <= 9,
{
    let ghost ex = existing_ids.deep_view();
    let mut rng = SeededRng::new(seed);
    let c = next_free_counter(existing_ids, 0);
    let id = make_region_id(c);

    let name_n = rng.draw(1, 100);
    let mut name_chars = str_chars("Mystery Zone ");
    push_decimal(&mut name_chars, name_n);
    let name = chars_string(&name_chars);

    let description = "A procedurally generated zone of strangeness and wonder.".to_owned();

    let e_draw = rng.draw(0, 4);
    let environment = env_from_index(e_draw);
    proof {
        assert(rng.draws() =~= single_prefix_history());
    }

    let e_count = existing_ids.len();
    proof {
        assert(ex.len() == e_count as nat);
    }
    let mut portals: Vec<Portal> = Vec::new();
    if e_count == 1 {
        let lvl = rng.draw(1, 10);
        let p = make_single_portal(&existing_ids[0], lvl);
        portals.push(p);
        proof {
            assert(ex[0] == existing_ids@[0]@);
            assert(portals.deep_view() =~= single_portals_view(ex, seed));
        }
    } else if e_count >= 2 {
        let i1 = rng.draw(0, e_count as u64);
        let i2r = rng.draw(0, e_count as u64 - 1);
        let i2 = if i2r >= i1 {
            i2r + 1
        } else {
            i2r
        };
        let lvl1 = rng.draw(1, 10);
        let lvl2 = rng.draw(1, 10);
        let p1 = make_single_portal(&existing_ids[i1 as usize], lvl1);
        let p2 = make_single_portal(&existing_ids[i2 as usize], lvl2);
        portals.push(p1);
        portals.push(p2);
        proof {
            assert(ex[i1 as int] == existing_ids@[i1 as int]@);
            assert(ex[i2 as int] == existing_ids@[i2 as int]@);
            assert(portals.deep_view() =~= single_portals_view(ex, seed));
        }
    } else {
        proof {
            assert(portals.deep_view() =~= single_portals_view(ex, seed));
        }
    }

    let r = DungeonRegion { id, name, description, environment, portals, anchor_point: None };
    proof {
        let ghost rv = single_region_view(ex, seed);
        assert(r.deep_view().portals == rv.portals);
        assert(r.deep_view() =~= rv);
        lemma_free_counter(ex, 0);
        assert(forall|j: int|
            0 <= j < rv.portals.len() ==> id_taken(ex, (#[trigger] rv.portals[j]).leads_to));
    }
    r
}

/// Determinism of generation: one run's output is the pure function
/// `gen_world_view` of the existing ids, the seed and the count, so two
/// runs with equal inputs produce identical regions.
pub proof fn lemma_generation_deterministic(
    ex: Seq<Seq<char>>,
    seed: u64,
    count: nat,
    r1: Seq<RegionView>,
    r2: Seq<RegionView>,
)
    requires
        r1 == gen_world_view(ex, seed, count),
        r2 == gen_world_view(ex, seed, count),
    ensures
        r1 == r2,
{
}

proof fn lemma_gen_counter_increasing(ex: Seq<Seq<char>>, i: nat, j: nat)
    requires
        i < j,
    ensures
        gen_counter(ex, i) < gen_counter(ex, j),
    decreases j,
{
    lemma_free_counter(ex, (gen_counter(ex, (j - 1) as nat) + 1) as nat);
    if i < j - 1 {
        lemma_gen_counter_increasing(ex, i, (j - 1) as nat);
    }
}

proof fn lemma_gen_counter_free(ex: Seq<Seq<char>>, i: nat)
    ensures
        !id_taken(ex, region_id_chars(gen_counter(ex, i))),
{
    if i == 0 {
        lemma_free_counter(ex, 0);
    } else {
        lemma_free_counter(ex, (gen_counter(ex, (i - 1) as nat) + 1) as nat);
    }
}

/// Fresh ids: no region of a generation run reuses an existing id, and no
/// two regions of one run share an id.
pub proof fn lemma_generated_ids_fresh(ex: Seq<Seq<char>>, seed: u64, count: nat, i: int, j: int)
    requires
        0 <= i < count,
        0 <= j < count,
        i != j,
    ensures
        !id_taken(ex, gen_world_view(ex, seed, count)[i].id),
        gen_world_view(ex, seed, count)[i].id != gen_world_view(ex, seed, count)[j].id,
{
    lemma_gen_counter_free(ex, i as nat);
    if i < j {
        lemma_gen_counter_increasing(ex, i as nat, j as nat);
    } else {
        lemma_gen_counter_increasing(ex, j as nat, i as nat);
    }
    if gen_world_view(ex, seed, count)[i].id == gen_world_view(ex, seed, count)[j].id {
        lemma_region_id_injective(gen_counter(ex, i as nat), gen_counter(ex, j as nat));
    }
}

/// Following first portals from region `i` of `rs` reaches a region whose
/// portal names `root`, within `fuel` steps.
pub open spec fn chain_reaches(rs: Seq<RegionView>, i: int, root: Seq<char>, fuel: nat) -> bool
    decreases fuel,
{
    fuel > 0 && 0 <= i < rs.len() && rs[i].portals.len() > 0 && (rs[i].portals[0].leads_to == root
        || exists|j: int|
        0 <= j < rs.len() && rs[j].id == rs[i].portals[0].leads_to && chain_reaches(
            rs,
            j,
            root,
            (fuel - 1) as nat,
        ))
}

/// Connectivity of generation: when the existing set designates a root,
/// every generated region reaches the root id by following the generated
/// portals; when the existing set is empty, the last generated region is
/// itself the terminal root and every earlier one reaches its id.
pub proof fn lemma_generated_regions_reach_root(ex: Seq<Seq<char>>, seed: u64, count: nat, i: int)
    requires
        0 <= i < count,
    ensures
        ({
            let rs = gen_world_view(ex, seed, count);
            match root_of(ex) {
                Some(root) => chain_reaches(rs, i, root, (count - i) as nat),
                None => i == count - 1 || chain_reaches(
                    rs,
                    i,
                    rs[count - 1].id,
                    (count - 1 - i) as nat,
                ),
            }
        }),
    decreases count - i,
{
    let rs = gen_world_view(ex, seed, count);
    match root_of(ex) {
        Some(root) => {
            if i + 1 == count {
                assert(rs[i].portals[0].leads_to == root);
            } else {
                lemma_generated_regions_reach_root(ex, seed, count, i + 1);
                assert(rs[i].portals[0].leads_to == rs[i + 1].id);
                assert(0 <= i + 1 < rs.len() && rs[i + 1].id == rs[i].portals[0].leads_to
                    && chain_reaches(rs, i + 1, root, (count - i - 1) as nat));
            }
        },
        None => {
            if i < count - 1 {
                assert(rs[i].portals[0].leads_to == rs[i + 1].id);
                if i + 1 == count - 1 {
                    assert(rs[i].portals[0].leads_to == rs[count - 1].id);
                } else {
                    lemma_generated_regions_reach_root(ex, seed, count, i + 1);
                    assert(0 <= i + 1 < rs.len() && rs[i + 1].id == rs[i].portals[0].leads_to
                        && chain_reaches(rs, i + 1, rs[count - 1].id, (count - 2 - i) as nat));
                }
            }
        },
    }
}

} // verus!
