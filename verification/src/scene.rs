//! The integer bookkeeping of a meshlet scene as its builder assembles it: the clusters'
//! pages rebased into the scene's page table, a mesh's LOD level table, roots and material
//! sections, the counts that size the work lists, and the checks and tables of the upload.

use vstd::prelude::*;

use crate::meshlet::TASK_GROUP_SIZE;
use crate::streaming::{PAGE_NONE, PAGE_SIZE};

verus! {

/// Roots a mesh may have for the instance cull's root shortcut: an instance whose roots are
/// all fine enough lists them in the root list instead of taking work items.
pub const MAX_SHORTCUT_ROOTS: usize = 4;

/// What an instance of a mesh with `meshlet_count` clusters and `root_count` shortcut roots
/// can put in either work list: all its groups of [`TASK_GROUP_SIZE`] clusters, or its roots.
pub fn work_bound(meshlet_count: u32, root_count: u32) -> (bound: u32)
    ensures
        bound == (if (meshlet_count + TASK_GROUP_SIZE - 1) / (TASK_GROUP_SIZE as int) >= root_count {
            (meshlet_count + TASK_GROUP_SIZE - 1) / (TASK_GROUP_SIZE as int)
        } else {
            root_count as int
        }),
{
    let groups = meshlet_count / TASK_GROUP_SIZE + if meshlet_count % TASK_GROUP_SIZE == 0 {
        0
    } else {
        1
    };
    assert(groups == (meshlet_count + TASK_GROUP_SIZE - 1) / (TASK_GROUP_SIZE as int));
    if groups >= root_count {
        groups
    } else {
        root_count
    }
}

/// A cluster's page and child page in the scene, its mesh's pages starting at `page_base`
/// (no child page stays none).
pub fn rebase_pages(page: u32, child_page: u32, page_base: u32) -> (pages: (u32, u32))
    requires
        page + page_base <= u32::MAX,
        child_page == PAGE_NONE || child_page + page_base <= u32::MAX,
    ensures
        pages.0 == page + page_base,
        pages.1 == (if child_page == PAGE_NONE {
            PAGE_NONE as int
        } else {
            child_page + page_base
        }),
{
    (page + page_base, if child_page == PAGE_NONE {
        PAGE_NONE
    } else {
        child_page + page_base
    })
}

/// The scene's root pages for a mesh with `count` of them from its first page
/// `page_base`: `page_base, page_base + 1, ...`.
pub fn root_pages(page_base: u32, count: u32) -> (pages: Vec<u32>)
    requires
        page_base + count <= u32::MAX,
    ensures
        pages@.len() == count,
        forall|p: int| 0 <= p < count ==> #[trigger] pages@[p] == page_base + p,
{
    let mut pages: Vec<u32> = Vec::new();
    let mut p: u32 = 0;
    while p < count
        invariant
            p <= count,
            page_base + count <= u32::MAX,
            pages@.len() == p,
            forall|q: int| 0 <= q < p ==> #[trigger] pages@[q] == page_base + q,
        decreases count - p,
    {
        pages.push(page_base + p);
        p = p + 1;
    }
    pages
}

/// The sum of the first `k` of `counts`.
pub open spec fn prefix_sum(counts: Seq<u32>, k: int) -> int
    decreases k,
{
    if k <= 0 {
        0
    } else {
        prefix_sum(counts, k - 1) + counts[k - 1]
    }
}

/// A mesh's level table for `levels` LOD levels: clusters are stored level by level, so
/// level `l` starts where the clusters of the levels before it end; of `clusters_per_level`
/// the first `levels` count, and the entries after the mesh's last level stay 0.
pub fn level_offsets(clusters_per_level: &[u32], levels: usize) -> (offsets: Vec<u32>)
    requires
        levels < usize::MAX,
        prefix_sum(
            clusters_per_level@,
            if clusters_per_level@.len() < levels {
                clusters_per_level@.len() as int
            } else {
                levels as int
            },
        ) <= u32::MAX,
    ensures
        offsets@.len() == levels + 1,
        forall|l: int|
            0 <= l <= levels ==> #[trigger] offsets@[l] == (if l <= clusters_per_level@.len() {
                prefix_sum(clusters_per_level@, l)
            } else {
                0
            }),
{
    let count = if clusters_per_level.len() < levels {
        clusters_per_level.len()
    } else {
        levels
    };
    let mut offsets: Vec<u32> = Vec::new();
    offsets.push(0);
    let mut l: usize = 0;
    while l < count
        invariant
            l <= count,
            count <= clusters_per_level@.len(),
            count <= levels,
            prefix_sum(clusters_per_level@, count as int) <= u32::MAX,
            offsets@.len() == l + 1,
            forall|k: int| 0 <= k <= l ==> #[trigger] offsets@[k] == prefix_sum(clusters_per_level@, k),
        decreases count - l,
    {
        proof {
            lemma_prefix_sum_grows(clusters_per_level@, l as int + 1, count as int);
        }
        offsets.push(offsets[l] + clusters_per_level[l]);
        l = l + 1;
    }
    while l < levels
        invariant
            count <= l <= levels,
            count <= clusters_per_level@.len(),
            count == clusters_per_level@.len() || count == levels,
            offsets@.len() == l + 1,
            forall|k: int| 0 <= k <= count ==> #[trigger] offsets@[k] == prefix_sum(clusters_per_level@, k),
            forall|k: int| count < k <= l ==> #[trigger] offsets@[k] == 0,
        decreases levels - l,
    {
        offsets.push(0);
        l = l + 1;
    }
    offsets
}

/// The sums of more of the counts are no smaller.
proof fn lemma_prefix_sum_grows(counts: Seq<u32>, j: int, k: int)
    requires
        0 <= j <= k <= counts.len(),
    ensures
        prefix_sum(counts, j) <= prefix_sum(counts, k),
    decreases k - j,
{
    if j < k {
        lemma_prefix_sum_grows(counts, j, k - 1);
    }
}

/// The indices of the roots among the first `n` clusters (`is_root`: the cluster has no
/// parent), ascending.
pub open spec fn root_indices(is_root: Seq<bool>, n: int) -> Seq<u32>
    decreases n,
{
    if n <= 0 {
        Seq::empty()
    } else if is_root[n - 1] {
        root_indices(is_root, n - 1).push((n - 1) as u32)
    } else {
        root_indices(is_root, n - 1)
    }
}

/// A mesh's shortcut roots from `is_root` (per cluster, whether it has no parent): the
/// first [`MAX_SHORTCUT_ROOTS`] roots' indices (0 past them), and their count, or 0 when
/// the mesh has more roots than that.
pub fn shortcut_roots(is_root: &[bool]) -> (roots: ([u32; 4], u32))
    requires
        is_root@.len() <= u32::MAX,
    ensures
        ({
            let rs = root_indices(is_root@, is_root@.len() as int);
            &&& roots.1 == (if rs.len() > MAX_SHORTCUT_ROOTS {
                0
            } else {
                rs.len() as int
            })
            &&& forall|k: int| 0 <= k < 4 ==> #[trigger] roots.0@[k] == (if k < rs.len() {
                rs[k]
            } else {
                0
            })
        }),
{
    let mut roots: [u32; 4] = [0, 0, 0, 0];
    let mut count: usize = 0;
    let mut i: usize = 0;
    while i < is_root.len()
        invariant
            i <= is_root@.len(),
            is_root@.len() <= u32::MAX,
            count == root_indices(is_root@, i as int).len(),
            count <= i,
            forall|k: int| 0 <= k < root_indices(is_root@, i as int).len() ==> #[trigger] root_indices(is_root@, i as int)[k] < i,
            forall|k: int| 0 <= k < 4 ==> #[trigger] roots@[k] == (if k < count {
                root_indices(is_root@, i as int)[k]
            } else {
                0
            }),
        decreases is_root@.len() - i,
    {
        let ghost before = root_indices(is_root@, i as int);
        if is_root[i] {
            if count < MAX_SHORTCUT_ROOTS {
                roots[count] = i as u32;
            }
            count = count + 1;
        }
        proof {
            let after = root_indices(is_root@, i as int + 1);
            if is_root@[i as int] {
                assert(after == before.push(i as u32));
            } else {
                assert(after == before);
            }
            assert forall|k: int| 0 <= k < after.len() implies #[trigger] after[k] < i + 1 by {
                if k < before.len() {
                    assert(after[k] == before[k]);
                }
            }
        }
        i = i + 1;
    }
    let n: u32 = if count > MAX_SHORTCUT_ROOTS {
        0
    } else {
        count as u32
    };
    (roots, n)
}

/// The material section a cluster's `section` names: the larger of its two low bytes.
pub open spec fn section_of(section: u32) -> u32 {
    let (a, b) = (section % 256, section / 256 % 256);
    if a >= b {
        a
    } else {
        b
    }
}

/// A mesh's highest material section over its clusters' `sections` (0 for none): its
/// instances need that many material rows after their own.
pub fn highest_section(sections: &[u32]) -> (top: u32)
    ensures
        forall|i: int| 0 <= i < sections@.len() ==> section_of(#[trigger] sections@[i]) <= top,
        sections@.len() == 0 ==> top == 0,
        sections@.len() > 0 ==> exists|i: int| 0 <= i < sections@.len() && section_of(#[trigger] sections@[i]) == top,
{
    let mut top: u32 = 0;
    let mut i: usize = 0;
    while i < sections.len()
        invariant
            i <= sections@.len(),
            forall|k: int| 0 <= k < i ==> section_of(#[trigger] sections@[k]) <= top,
            i == 0 ==> top == 0,
            i > 0 ==> exists|k: int| 0 <= k < i && section_of(#[trigger] sections@[k]) == top,
        decreases sections@.len() - i,
    {
        let s = sections[i];
        let a = s & 0xff;
        let b = (s >> 8) & 0xff;
        assert(a == s % 256 && b == s / 256 % 256) by (bit_vector)
            requires
                a == s & 0xff,
                b == (s >> 8) & 0xff,
        ;
        let here = if a >= b {
            a
        } else {
            b
        };
        if i == 0 || here > top {
            top = here;
        }
        i = i + 1;
    }
    top
}

/// The scene's counts over its instances: triangles, finest-level clusters, the bound of the
/// work lists (see [`work_bound`]) and clusters.
#[derive(Clone, Copy, Debug, PartialEq, Eq)]
pub struct SceneCounts {
    /// Triangles over all instances at full detail.
    pub total_triangles: u64,
    /// Finest-level clusters over all instances.
    pub finest_clusters: u64,
    /// Work items if every instance were visible with every level possible.
    pub work_bound: u64,
    /// Clusters over all instances.
    pub instance_meshlets: u64,
}

impl SceneCounts {
    /// No instance yet.
    pub fn new() -> (counts: Self)
        ensures
            counts == (SceneCounts { total_triangles: 0, finest_clusters: 0, work_bound: 0, instance_meshlets: 0 }),
    {
        SceneCounts { total_triangles: 0, finest_clusters: 0, work_bound: 0, instance_meshlets: 0 }
    }

    /// Counts `count` instances of a mesh of `triangles` triangles, `finest` finest-level
    /// clusters, work bound `bound` and `meshlets` clusters (one for an instance added, as
    /// many as reserved for the GPU placement).
    pub fn add_instances(&mut self, triangles: u32, finest: u32, bound: u32, meshlets: u32, count: u32)
        requires
            old(self).total_triangles + triangles * count <= u64::MAX,
            old(self).finest_clusters + finest * count <= u64::MAX,
            old(self).work_bound + bound * count <= u64::MAX,
            old(self).instance_meshlets + meshlets * count <= u64::MAX,
        ensures
            final(self).total_triangles == old(self).total_triangles + triangles * count,
            final(self).finest_clusters == old(self).finest_clusters + finest * count,
            final(self).work_bound == old(self).work_bound + bound * count,
            final(self).instance_meshlets == old(self).instance_meshlets + meshlets * count,
    {
        let n = count as u64;
        assert(triangles as u64 * n <= u64::MAX && finest as u64 * n <= u64::MAX && bound as u64 * n <= u64::MAX
            && meshlets as u64 * n <= u64::MAX) by (nonlinear_arith)
            requires
                n == count,
        ;
        self.total_triangles = self.total_triangles + triangles as u64 * n;
        self.finest_clusters = self.finest_clusters + finest as u64 * n;
        self.work_bound = self.work_bound + bound as u64 * n;
        self.instance_meshlets = self.instance_meshlets + meshlets as u64 * n;
    }
}

/// The slot of page `page` among the first `n` of the pinned pages: the last that holds it,
/// or none.
pub open spec fn pinned_slot(pinned: Seq<u32>, page: u32, n: int) -> u32
    decreases n,
{
    if n <= 0 {
        PAGE_NONE
    } else if pinned[n - 1] == page {
        (n - 1) as u32
    } else {
        pinned_slot(pinned, page, n - 1)
    }
}

/// The page table of a streamed scene of `page_count` pages (at least one entry): each
/// pinned page in the slot of its place among `pinned`, every other page none.
pub fn pinned_page_table(page_count: u32, pinned: &[u32]) -> (table: Vec<u32>)
    requires
        pinned@.len() < PAGE_NONE,
        forall|k: int| 0 <= k < pinned@.len() ==> #[trigger] pinned@[k] < page_count,
    ensures
        table@.len() == (if page_count == 0 {
            1
        } else {
            page_count as int
        }),
        forall|p: int| 0 <= p < table@.len() ==> #[trigger] table@[p] == pinned_slot(pinned@, p as u32, pinned@.len() as int),
{
    let size: usize = if page_count == 0 {
        1
    } else {
        page_count as usize
    };
    let mut table: Vec<u32> = Vec::new();
    let mut p: usize = 0;
    while p < size
        invariant
            p <= size,
            table@.len() == p,
            forall|q: int| 0 <= q < p ==> #[trigger] table@[q] == PAGE_NONE,
        decreases size - p,
    {
        table.push(PAGE_NONE);
        p = p + 1;
    }
    let mut k: usize = 0;
    while k < pinned.len()
        invariant
            k <= pinned@.len(),
            pinned@.len() < PAGE_NONE,
            table@.len() == size,
            size >= page_count,
            size <= u32::MAX,
            forall|j: int| 0 <= j < pinned@.len() ==> #[trigger] pinned@[j] < page_count,
            forall|q: int| 0 <= q < size ==> #[trigger] table@[q] == pinned_slot(pinned@, q as u32, k as int),
        decreases pinned@.len() - k,
    {
        let page = pinned[k];
        let ghost before = table@;
        table.set(page as usize, k as u32);
        assert forall|q: int| 0 <= q < size implies #[trigger] table@[q] == pinned_slot(pinned@, q as u32, k + 1) by {
            assert((q as u32) as int == q);
            if q != page {
                assert(table@[q] == before[q]);
            }
        }
        k = k + 1;
    }
    table
}

/// Whether a pool of `pool_pages` pages can stream a scene with `root_pages` pinned: it holds
/// more than the roots, and the shaders address all of it in 32-bit bytes.
pub fn pool_fits(pool_pages: u32, root_pages: usize) -> (fits: bool)
    ensures
        fits == (pool_pages > root_pages && pool_pages * PAGE_SIZE < 0x1_0000_0000),
{
    (pool_pages as usize) > root_pages && (pool_pages as u64) * (PAGE_SIZE as u64) < 0x1_0000_0000u64
}

/// Whether every one of `page_count` pages fits in a pool the shaders address in 32-bit
/// bytes, as a scene with all its pages resident needs.
pub fn all_resident_fits(page_count: u32) -> (fits: bool)
    ensures
        fits == (page_count * PAGE_SIZE < 0x1_0000_0000),
{
    assert((page_count as u64) * 131072u64 <= 0xffff_ffffu64 * 131072u64) by (nonlinear_arith);
    (page_count as u64) * (PAGE_SIZE as u64) < 0x1_0000_0000u64
}

/// The first instance whose material rows run past a table of `rows` rows: instance `i`
/// takes material `materials[i]` and the `sections[meshes[i]]` rows after it.
pub fn first_short_instance(materials: &[u32], meshes: &[u32], sections: &[u32], rows: usize) -> (bad: Option<usize>)
    requires
        meshes@.len() == materials@.len(),
        forall|i: int| 0 <= i < meshes@.len() ==> #[trigger] meshes@[i] < sections@.len(),
        forall|i: int| 0 <= i < meshes@.len() ==> #[trigger] materials@[i] + sections@[meshes@[i] as int] <= u32::MAX,
    ensures
        match bad {
            Some(i) => i < materials@.len() && materials@[i as int] + sections@[meshes@[i as int] as int] >= rows && forall|
                j: int,
            | 0 <= j < i ==> #[trigger] materials@[j] + sections@[meshes@[j] as int] < rows,
            None => forall|j: int| 0 <= j < materials@.len() ==> #[trigger] materials@[j] + sections@[meshes@[j] as int] < rows,
        },
{
    let mut i: usize = 0;
    while i < materials.len()
        invariant
            i <= materials@.len(),
            meshes@.len() == materials@.len(),
            forall|k: int| 0 <= k < meshes@.len() ==> #[trigger] meshes@[k] < sections@.len(),
            forall|k: int| 0 <= k < meshes@.len() ==> #[trigger] materials@[k] + sections@[meshes@[k] as int] <= u32::MAX,
            forall|j: int| 0 <= j < i ==> #[trigger] materials@[j] + sections@[meshes@[j] as int] < rows,
        decreases materials@.len() - i,
    {
        if (materials[i] + sections[meshes[i] as usize]) as usize >= rows {
            return Some(i);
        }
        i = i + 1;
    }
    None
}

/// The most clusters a mesh of the scene has (0 without a mesh).
pub fn max_meshlets(counts: &[u32]) -> (top: u32)
    ensures
        forall|i: int| 0 <= i < counts@.len() ==> #[trigger] counts@[i] <= top,
        counts@.len() == 0 ==> top == 0,
        counts@.len() > 0 ==> exists|i: int| 0 <= i < counts@.len() && #[trigger] counts@[i] == top,
{
    let mut top: u32 = 0;
    let mut i: usize = 0;
    while i < counts.len()
        invariant
            i <= counts@.len(),
            forall|k: int| 0 <= k < i ==> #[trigger] counts@[k] <= top,
            i == 0 ==> top == 0,
            i > 0 ==> exists|k: int| 0 <= k < i && #[trigger] counts@[k] == top,
        decreases counts@.len() - i,
    {
        if i == 0 || counts[i] > top {
            top = counts[i];
        }
        i = i + 1;
    }
    top
}

/// The bytes of the instance cull's look-back buffer for `instances` instances: eight per
/// group of 64, at least one group.
pub fn lookback_bytes(instances: u64) -> (bytes: u64)
    ensures
        bytes == 8 * (if instances == 0 {
            1
        } else {
            (instances + 63) / 64
        }),
{
    let groups = instances / 64 + if instances % 64 == 0 {
        0
    } else {
        1
    };
    assert(groups == (instances + 63) / 64);
    let groups = if groups == 0 {
        1
    } else {
        groups
    };
    groups * 8
}

} // verus!
