//! A tree of regions.
use crate::keyset::Key;
use crate::list::List;
use vstd::prelude::*;

verus! {

/// The number of a region.
#[derive(Clone, Copy, Debug, PartialEq, Eq, Structural, Hash)]
pub struct RegionId(pub usize);

impl Key for RegionId {
    fn twin(&self) -> (r: Self) {
        *self
    }

    fn same(&self, other: &Self) -> (r: bool) {
        self.0 == other.0
    }
}

/// The variables of a region.
#[derive(Debug)]
pub struct Pool {
    /// The inference variables.
    pub var_ids: Vec<usize>,
    /// The rigid variables.
    pub rigid_var_ids: Vec<usize>,
}

impl Pool {
    pub fn new() -> (r: Self)
        ensures
            r.var_ids@.len() == 0,
            r.rigid_var_ids@.len() == 0,
    {
        Pool { var_ids: Vec::new(), rigid_var_ids: Vec::new() }
    }

    pub fn register_var(&mut self, var_id: usize)
        ensures
            final(self).var_ids@ == old(self).var_ids@.push(var_id),
            final(self).rigid_var_ids@ == old(self).rigid_var_ids@,
    {
        self.var_ids.push(var_id);
    }

    pub fn register_rigid_var(&mut self, var_id: usize)
        ensures
            final(self).rigid_var_ids@ == old(self).rigid_var_ids@.push(var_id),
            final(self).var_ids@ == old(self).var_ids@,
    {
        self.rigid_var_ids.push(var_id);
    }

    /// There is a variable, inference or rigid.
    pub fn is_alive(&self) -> (r: bool)
        ensures
            r == (self.var_ids@.len() > 0 || self.rigid_var_ids@.len() > 0),
    {
        self.var_ids.len() > 0 || self.rigid_var_ids.len() > 0
    }
}

/// A region.
#[derive(Debug)]
pub struct RegionNode {
    pub id: RegionId,
    pub level: usize,
    pub parent: Option<RegionId>,
    pub children: Vec<RegionId>,
    pub pool: Pool,
    /// A variable of the region has changed.
    pub dirty: bool,
    /// The children that are dirty; they are processed first.
    pub dirty_children: Vec<RegionId>,
}

/// A tree of regions.
#[derive(Debug)]
pub struct RegionTree {
    pub nodes: Vec<RegionNode>,
    pub root: RegionId,
    pub current: RegionId,
}

// ---------------------------------------------------------------------------
// Meaning
// ---------------------------------------------------------------------------

/// A region, as mathematics.
pub struct Region {
    pub id: RegionId,
    pub level: usize,
    pub parent: Option<RegionId>,
    pub children: Seq<RegionId>,
    pub vars: Seq<usize>,
    pub rigid_vars: Seq<usize>,
    pub dirty: bool,
    pub dirty_children: Seq<RegionId>,
}

/// A tree of regions, as mathematics.
#[verifier::ext_equal]
pub struct Tree {
    pub regions: Seq<Region>,
    pub root: RegionId,
    pub current: RegionId,
}

impl RegionNode {
    pub open spec fn model(self) -> Region {
        Region {
            id: self.id,
            level: self.level,
            parent: self.parent,
            children: self.children@,
            vars: self.pool.var_ids@,
            rigid_vars: self.pool.rigid_var_ids@,
            dirty: self.dirty,
            dirty_children: self.dirty_children@,
        }
    }
}

impl View for RegionTree {
    type V = Tree;

    open spec fn view(&self) -> Tree {
        Tree {
            regions: Seq::new(self.nodes@.len(), |i: int| self.nodes@[i].model()),
            root: self.root,
            current: self.current,
        }
    }
}

impl Region {
    /// A new region.
    pub open spec fn fresh(id: usize, level: usize, parent: Option<RegionId>) -> Region {
        Region {
            id: RegionId(id),
            level,
            parent,
            children: Seq::empty(),
            vars: Seq::empty(),
            rigid_vars: Seq::empty(),
            dirty: false,
            dirty_children: Seq::empty(),
        }
    }
}

impl Tree {
    /// The region `a` is `x` or lies above it.
    pub open spec fn is_above(self, a: int, x: int) -> bool
        decreases x,
    {
        a == x || (match self.regions[x].parent {
            Some(p) => p.0 < x && self.is_above(a, p.0 as int),
            None => false,
        })
    }

    /// A region is where its number says, below its parent, and its children
    /// are below it. A dirty region is listed by its parent, which is dirty too,
    /// and a region lists nothing but children that are dirty, each once.
    pub open spec fn region_wf(self, i: int) -> bool {
        let r = self.regions[i];
        &&& r.id.0 == i
        &&& r.parent is None <==> i == 0
        &&& match r.parent {
            Some(p) => p.0 < i && r.level == self.regions[p.0 as int].level + 1,
            None => r.level == 0,
        }
        &&& r.level <= i
        &&& forall|k: int|
            0 <= k < r.children.len() ==> i < (#[trigger] r.children[k]).0 < self.regions.len()
                && self.regions[r.children[k].0 as int].parent == Some(r.id)
        &&& r.dirty ==> match r.parent {
            Some(p) => self.regions[p.0 as int].dirty
                && self.regions[p.0 as int].dirty_children.contains(r.id),
            None => true,
        }
        &&& forall|k: int|
            0 <= k < r.dirty_children.len() ==> self.lists(i, #[trigger] r.dirty_children[k])
        &&& r.dirty_children.no_duplicates()
    }

    /// A region may list the other: both are dirty, and it is the parent.
    pub open spec fn lists(self, i: int, d: RegionId) -> bool {
        &&& i < d.0 < self.regions.len()
        &&& self.regions[i].dirty
        &&& self.regions[d.0 as int].dirty
        &&& self.regions[d.0 as int].parent == Some(self.regions[i].id)
    }

    pub open spec fn wf(self) -> bool {
        &&& self.regions.len() > 0
        &&& self.root.0 == 0
        &&& self.current.0 < self.regions.len()
        &&& forall|i: int| 0 <= i < self.regions.len() ==> #[trigger] self.region_wf(i)
    }

    /// The tree with one region replaced.
    pub open spec fn with(self, i: int, r: Region) -> Tree {
        Tree { regions: self.regions.update(i, r), ..self }
    }

    /// The tree with a new region below the current one.
    pub open spec fn entered(self) -> Tree {
        let c = self.current.0 as int;
        let r = self.regions[c];
        let id = RegionId(self.regions.len() as usize);
        Tree {
            regions: self.regions.update(
                c,
                Region { children: r.children.push(id), ..r },
            ).push(Region::fresh(id.0, (r.level + 1) as usize, Some(self.current))),
            current: id,
            ..self
        }
    }

    /// The tree once the current region has been left.
    pub open spec fn exited(self) -> Tree {
        match self.regions[self.current.0 as int].parent {
            Some(p) => Tree { current: p, ..self },
            None => self,
        }
    }

    /// The tree once a region is dirty: so are the regions above it, and each
    /// lists the one below that has become dirty.
    pub open spec fn marked(self, id: RegionId) -> Tree
        decreases id.0,
    {
        let i = id.0 as int;
        if self.regions[i].dirty {
            self
        } else {
            let t = match self.regions[i].parent {
                Some(p) => if p.0 < id.0 {
                    let u = self.marked(p);
                    let r = u.regions[p.0 as int];
                    u.with(p.0 as int, Region { dirty_children: r.dirty_children.push(id), ..r })
                } else {
                    self
                },
                None => self,
            };
            t.with(i, Region { dirty: true, ..t.regions[i] })
        }
    }

    /// A list without a region.
    pub open spec fn removed(list: Seq<RegionId>, id: RegionId) -> Seq<RegionId>
        decreases list.len(),
    {
        if list.len() == 0 {
            list
        } else {
            let before = Tree::removed(list.drop_last(), id);
            if list.last() == id {
                before
            } else {
                before.push(list.last())
            }
        }
    }

    /// The tree once a region has been processed: it is clean, unless regions
    /// below it are still to be processed.
    pub open spec fn cleaned(self, id: RegionId) -> Tree {
        let i = id.0 as int;
        if self.regions[i].dirty_children.len() > 0 {
            self
        } else {
            let t = self.with(i, Region { dirty: false, ..self.regions[i] });
            match t.regions[i].parent {
                Some(p) => t.with(
                    p.0 as int,
                    Region {
                        dirty_children: Tree::removed(t.regions[p.0 as int].dirty_children, id),
                        ..t.regions[p.0 as int]
                    },
                ),
                None => t,
            }
        }
    }
}

/// The numbers of the first `n` regions for which `pick` holds.
pub open spec fn picked(regions: Seq<Region>, pick: spec_fn(Region) -> bool, n: nat) -> Seq<
    RegionId,
>
    decreases n,
{
    if n == 0 {
        Seq::empty()
    } else {
        let before = picked(regions, pick, (n - 1) as nat);
        if pick(regions[n - 1]) {
            before.push(regions[n - 1].id)
        } else {
            before
        }
    }
}

/// The region is dirty.
pub open spec fn is_dirty() -> spec_fn(Region) -> bool {
    |r: Region| r.dirty
}

/// The region has a variable, inference or rigid.
pub open spec fn has_vars() -> spec_fn(Region) -> bool {
    |r: Region| r.vars.len() > 0 || r.rigid_vars.len() > 0
}

/// What is done with each dirty region.
pub trait RegionProcessor: Sized {
    /// What processing a region does to the processor and to the tree: nothing,
    /// unless a processor says otherwise.
    open spec fn after(self, id: RegionId, t: Tree) -> (Self, Tree) {
        (self, t)
    }

    fn process(&mut self, id: RegionId, tree: &mut RegionTree)
        requires
            old(tree)@.wf(),
            id.0 < old(tree)@.regions.len(),
        ensures
            (*final(self), final(tree)@) == (*old(self)).after(id, old(tree)@),
            final(tree)@.wf(),
            final(tree)@.regions.len() >= old(tree)@.regions.len(),
    ;
}

/// The regions below, in order, then the region itself, if it is dirty.
pub open spec fn drained<P: RegionProcessor>(p: P, t: Tree, id: RegionId) -> (P, Tree)
    decreases usize::MAX - id.0, 1nat, 0nat,
{
    if !t.regions[id.0 as int].dirty {
        (p, t)
    } else {
        let children = t.regions[id.0 as int].dirty_children;
        let (q, u) = drained_all(p, t, id, children, children.len());
        let (r, v) = q.after(id, u);
        (r, v.cleaned(id))
    }
}

/// The first `n` of the regions below `id`, in order.
pub open spec fn drained_all<P: RegionProcessor>(
    p: P,
    t: Tree,
    id: RegionId,
    list: Seq<RegionId>,
    n: nat,
) -> (P, Tree)
    decreases usize::MAX - id.0, 0nat, n,
{
    if n == 0 || n > list.len() {
        (p, t)
    } else {
        let (q, u) = drained_all(p, t, id, list, (n - 1) as nat);
        if list[n - 1].0 > id.0 {
            drained(q, u, list[n - 1])
        } else {
            (q, u)
        }
    }
}

/// Notes the regions that are processed, in order.
#[derive(Debug)]
pub struct Noted {
    pub ids: List<RegionId>,
}

impl RegionProcessor for Noted {
    open spec fn after(self, id: RegionId, t: Tree) -> (Self, Tree) {
        (Noted { ids: self.ids.cons(id) }, t)
    }

    fn process(&mut self, id: RegionId, tree: &mut RegionTree) {
        self.ids = self.ids.clone().push(id);
    }
}

// ---------------------------------------------------------------------------
// The tree
// ---------------------------------------------------------------------------

impl RegionTree {
    /// The tree of the root alone.
    pub fn new() -> (r: Self)
        ensures
            r@.wf(),
            r@ == (Tree {
                regions: seq![Region::fresh(0, 0, None)],
                root: RegionId(0),
                current: RegionId(0),
            }),
    {
        let root = RegionNode {
            id: RegionId(0),
            level: 0,
            parent: None,
            children: Vec::new(),
            pool: Pool::new(),
            dirty: false,
            dirty_children: Vec::new(),
        };
        assert(root.model().children =~= Seq::<RegionId>::empty());
        assert(root.model().vars =~= Seq::<usize>::empty());
        assert(root.model().rigid_vars =~= Seq::<usize>::empty());
        assert(root.model().dirty_children =~= Seq::<RegionId>::empty());
        let mut nodes: Vec<RegionNode> = Vec::new();
        nodes.push(root);
        let r = RegionTree { nodes, root: RegionId(0), current: RegionId(0) };
        assert(r@.regions =~= seq![Region::fresh(0, 0, None)]);
        assert(r@.region_wf(0));
        r
    }

    /// Enters a new region below the current one; hands out its number.
    pub fn enter_region(&mut self) -> (r: RegionId)
        requires
            old(self)@.wf(),
            old(self)@.regions.len() < usize::MAX,
        ensures
            final(self)@.wf(),
            final(self)@ == old(self)@.entered(),
            r == final(self)@.current,
            r.0 == old(self)@.regions.len(),
    {
        let id = RegionId(self.nodes.len());
        let c: usize = self.current.0;
        assert(self@.region_wf(c as int));
        let level: usize = self.nodes[c].level;
        let node = RegionNode {
            id,
            level: level + 1,
            parent: Some(self.current),
            children: Vec::new(),
            pool: Pool::new(),
            dirty: false,
            dirty_children: Vec::new(),
        };
        proof {
            assert(node.model().children =~= Seq::<RegionId>::empty());
            assert(node.model().vars =~= Seq::<usize>::empty());
            assert(node.model().rigid_vars =~= Seq::<usize>::empty());
            assert(node.model().dirty_children =~= Seq::<RegionId>::empty());
        }
        self.nodes[c].children.push(id);
        self.nodes.push(node);
        self.current = id;
        proof {
            let want = old(self)@.entered();
            assert(self@.regions =~= want.regions);
            assert forall|i: int| 0 <= i < self@.regions.len() implies #[trigger] self@.region_wf(
                i,
            ) by {
                if i < old(self)@.regions.len() {
                    assert(old(self)@.region_wf(i));
                }
            }
        }
        id
    }

    /// Leaves the current region for the one above.
    pub fn exit_region(&mut self)
        requires
            old(self)@.wf(),
        ensures
            final(self)@.wf(),
            final(self)@ == old(self)@.exited(),
    {
        assert(self@.region_wf(self.current.0 as int));
        if let Some(parent) = self.nodes[self.current.0].parent {
            self.current = parent;
        }
        assert(self@.regions =~= old(self)@.regions);
        assert forall|i: int| 0 <= i < self@.regions.len() implies #[trigger] self@.region_wf(
            i,
        ) by {
            assert(old(self)@.region_wf(i));
        }
    }

    /// The depth of a region.
    pub fn get_level(&self, region_id: RegionId) -> (r: usize)
        requires
            region_id.0 < self@.regions.len(),
        ensures
            r == self@.regions[region_id.0 as int].level,
    {
        self.nodes[region_id.0].level
    }

    /// The deepest region that lies above both regions.
    pub fn nearest_common_ancestor(&self, a: RegionId, b: RegionId) -> (r: RegionId)
        requires
            self@.wf(),
            a.0 < self@.regions.len(),
            b.0 < self@.regions.len(),
        ensures
            r.0 < self@.regions.len(),
            self@.is_above(r.0 as int, a.0 as int),
            self@.is_above(r.0 as int, b.0 as int),
            forall|c: int| #[trigger]
                self@.is_above(c, a.0 as int) && self@.is_above(c, b.0 as int)
                    ==> self@.is_above(c, r.0 as int),
        decreases a.0 + b.0,
    {
        if a.0 == b.0 {
            return a;
        }
        proof {
            assert(self@.region_wf(a.0 as int));
            assert(self@.region_wf(b.0 as int));
            lemma_level_zero(self@, a.0 as int);
            lemma_level_zero(self@, b.0 as int);
        }
        let la: usize = self.nodes[a.0].level;
        let lb: usize = self.nodes[b.0].level;
        let up_a = if la >= lb {
            self.nodes[a.0].parent
        } else {
            Some(a)
        };
        let up_b = if lb >= la {
            self.nodes[b.0].parent
        } else {
            Some(b)
        };
        match (up_a, up_b) {
            (Some(x), Some(y)) => {
                let r = self.nearest_common_ancestor(x, y);
                proof {
                    assert forall|c: int| #[trigger]
                        self@.is_above(c, a.0 as int) && self@.is_above(
                            c,
                            b.0 as int,
                        ) implies self@.is_above(c, r.0 as int) by {
                        lemma_above_level(self@, c, a.0 as int);
                        lemma_above_level(self@, c, b.0 as int);
                        assert(self@.is_above(c, x.0 as int));
                        assert(self@.is_above(c, y.0 as int));
                    }
                }
                r
            },
            _ => {
                assert(false);
                a
            },
        }
    }

    /// The region `ancestor` is `node` or lies above it.
    pub fn is_ancestor(&self, ancestor: RegionId, node: RegionId) -> (r: bool)
        requires
            self@.wf(),
            ancestor.0 < self@.regions.len(),
            node.0 < self@.regions.len(),
        ensures
            r == self@.is_above(ancestor.0 as int, node.0 as int),
    {
        let c = self.nearest_common_ancestor(ancestor, node);
        proof {
            if self@.is_above(ancestor.0 as int, node.0 as int) {
                assert(self@.is_above(ancestor.0 as int, ancestor.0 as int));
                lemma_above_antisymmetric(self@, ancestor.0 as int, c.0 as int);
            }
        }
        c.0 == ancestor.0
    }

    /// Marks a region and those above it dirty, up to the nearest one that is.
    pub fn mark_dirty(&mut self, region_id: RegionId)
        requires
            old(self)@.wf(),
            region_id.0 < old(self)@.regions.len(),
        ensures
            final(self)@.wf(),
            final(self)@ == old(self)@.marked(region_id),
        decreases region_id.0,
    {
        let i: usize = region_id.0;
        let ghost before = self@;
        if self.nodes[i].dirty {
            return;
        }
        proof {
            assert(before.region_wf(i as int));
            lemma_marked(before, region_id);
        }
        if let Some(p) = self.nodes[i].parent {
            self.mark_dirty(p);
            proof {
                lemma_marked(before, p);
            }
            let ghost u = self@;
            self.nodes[p.0].dirty_children.push(region_id);
            assert(self@.regions =~= u.with(
                p.0 as int,
                Region {
                    dirty_children: u.regions[p.0 as int].dirty_children.push(region_id),
                    ..u.regions[p.0 as int]
                },
            ).regions);
        }
        self.nodes[i].dirty = true;
        assert(self@.regions =~= before.marked(region_id).regions);
    }

    /// Marks the current region dirty.
    pub fn mark_current_dirty(&mut self)
        requires
            old(self)@.wf(),
        ensures
            final(self)@.wf(),
            final(self)@ == old(self)@.marked(old(self)@.current),
    {
        self.mark_dirty(self.current);
    }

    /// Cleans a region that has been processed.
    fn clean(&mut self, id: RegionId)
        requires
            old(self)@.wf(),
            id.0 < old(self)@.regions.len(),
        ensures
            final(self)@.wf(),
            final(self)@ == old(self)@.cleaned(id),
            final(self)@.regions.len() == old(self)@.regions.len(),
    {
        let i: usize = id.0;
        let ghost before = self@;
        proof {
            assert(before.region_wf(i as int));
            lemma_cleaned(before, id);
        }
        if self.nodes[i].dirty_children.len() > 0 {
            return;
        }
        self.nodes[i].dirty = false;
        if let Some(p) = self.nodes[i].parent {
            let kept = without(&self.nodes[p.0].dirty_children, id);
            self.nodes[p.0].dirty_children = kept;
        }
        assert(self@.regions =~= before.cleaned(id).regions);
    }

    /// Processes the dirty regions below a region, then the region itself.
    pub fn drain_dirty<P: RegionProcessor>(&mut self, region_id: RegionId, f: &mut P)
        requires
            old(self)@.wf(),
            region_id.0 < old(self)@.regions.len(),
        ensures
            (*final(f), final(self)@) == drained(*old(f), old(self)@, region_id),
            final(self)@.wf(),
            final(self)@.regions.len() >= old(self)@.regions.len(),
        decreases usize::MAX - region_id.0,
    {
        if !self.nodes[region_id.0].dirty {
            return;
        }
        assert(self@.region_wf(region_id.0 as int));
        let children = copy_ids(&self.nodes[region_id.0].dirty_children);
        let ghost t = self@;
        let ghost start = *f;
        for k in 0..children.len()
            invariant
                self@.wf(),
                self@.regions.len() >= t.regions.len(),
                region_id.0 < t.regions.len(),
                children@ == t.regions[region_id.0 as int].dirty_children,
                forall|j: int|
                    0 <= j < children@.len() ==> region_id.0 < (#[trigger] children@[j]).0
                        < t.regions.len(),
                (*f, self@) == drained_all(start, t, region_id, children@, k as nat),
        {
            let child = children[k];
            assert(region_id.0 < children@[k as int].0);
            self.drain_dirty(child, f);
        }
        f.process(region_id, self);
        self.clean(region_id);
    }

    /// Processes the dirty regions from the root.
    pub fn drain_dirty_roots<P: RegionProcessor>(&mut self, f: &mut P)
        requires
            old(self)@.wf(),
        ensures
            (*final(f), final(self)@) == drained(*old(f), old(self)@, RegionId(0)),
            final(self)@.wf(),
            final(self)@.regions.len() >= old(self)@.regions.len(),
    {
        let root = self.root;
        self.drain_dirty(root, f);
    }

    /// An inference variable of the current region.
    pub fn register_var(&mut self, var_id: usize)
        requires
            old(self)@.wf(),
        ensures
            final(self)@.wf(),
            ({
                let c = old(self)@.current.0 as int;
                let r = old(self)@.regions[c];
                final(self)@ == old(self)@.with(c, Region { vars: r.vars.push(var_id), ..r })
            }),
    {
        let c: usize = self.current.0;
        self.nodes[c].pool.register_var(var_id);
        proof {
            let r = old(self)@.regions[c as int];
            let want = old(self)@.with(c as int, Region { vars: r.vars.push(var_id), ..r });
            assert(self@.regions =~= want.regions);
            assert forall|k: int| 0 <= k < self@.regions.len() implies #[trigger] self@.region_wf(
                k,
            ) by {
                assert(old(self)@.region_wf(k));
            }
        }
    }

    /// A rigid variable of the current region.
    pub fn register_rigid_var(&mut self, var_id: usize)
        requires
            old(self)@.wf(),
        ensures
            final(self)@.wf(),
            ({
                let c = old(self)@.current.0 as int;
                let r = old(self)@.regions[c];
                final(self)@ == old(self)@.with(
                    c,
                    Region { rigid_vars: r.rigid_vars.push(var_id), ..r },
                )
            }),
    {
        let c: usize = self.current.0;
        self.nodes[c].pool.register_rigid_var(var_id);
        proof {
            let r = old(self)@.regions[c as int];
            let want = old(self)@.with(
                c as int,
                Region { rigid_vars: r.rigid_vars.push(var_id), ..r },
            );
            assert(self@.regions =~= want.regions);
            assert forall|k: int| 0 <= k < self@.regions.len() implies #[trigger] self@.region_wf(
                k,
            ) by {
                assert(old(self)@.region_wf(k));
            }
        }
    }

    /// The dirty regions.
    pub fn collect_dirty_ids(&self) -> (r: Vec<RegionId>)
        ensures
            r@ == picked(self@.regions, is_dirty(), self@.regions.len()),
    {
        let mut ids: Vec<RegionId> = Vec::new();
        for i in 0..self.nodes.len()
            invariant
                ids@ == picked(self@.regions, is_dirty(), i as nat),
        {
            assert(is_dirty()(self@.regions[i as int]) == self.nodes@[i as int].dirty);
            if self.nodes[i].dirty {
                ids.push(self.nodes[i].id);
            }
        }
        ids
    }

    /// The regions with inference variables.
    pub fn collect_alive_ids(&self) -> (r: Vec<RegionId>)
        ensures
            r@ == picked(self@.regions, has_vars(), self@.regions.len()),
    {
        let mut ids: Vec<RegionId> = Vec::new();
        for i in 0..self.nodes.len()
            invariant
                ids@ == picked(self@.regions, has_vars(), i as nat),
        {
            assert(has_vars()(self@.regions[i as int]) == (self.nodes@[i as int].pool.var_ids@.len()
                > 0 || self.nodes@[i as int].pool.rigid_var_ids@.len() > 0));
            if self.nodes[i].pool.is_alive() {
                ids.push(self.nodes[i].id);
            }
        }
        ids
    }
}

fn copy_ids(list: &Vec<RegionId>) -> (r: Vec<RegionId>)
    ensures
        r@ == list@,
{
    let mut out: Vec<RegionId> = Vec::new();
    for k in 0..list.len()
        invariant
            out@ == list@.take(k as int),
    {
        out.push(list[k]);
        assert(out@ =~= list@.take(k + 1));
    }
    assert(list@.take(list@.len() as int) =~= list@);
    out
}

fn without(list: &Vec<RegionId>, id: RegionId) -> (r: Vec<RegionId>)
    ensures
        r@ == Tree::removed(list@, id),
{
    let mut out: Vec<RegionId> = Vec::new();
    for k in 0..list.len()
        invariant
            out@ == Tree::removed(list@.take(k as int), id),
    {
        proof {
            assert(list@.take(k + 1).drop_last() =~= list@.take(k as int));
            assert(list@.take(k + 1).last() == list@[k as int]);
        }
        if list[k].0 != id.0 {
            out.push(list[k]);
        }
    }
    assert(list@.take(list@.len() as int) =~= list@);
    out
}

proof fn lemma_removed(list: Seq<RegionId>, id: RegionId)
    ensures
        forall|x: RegionId| #[trigger]
            Tree::removed(list, id).contains(x) <==> list.contains(x) && x != id,
        list.no_duplicates() ==> Tree::removed(list, id).no_duplicates(),
        !list.contains(id) ==> Tree::removed(list, id) == list,
    decreases list.len(),
{
    if list.len() > 0 {
        let before = list.drop_last();
        lemma_removed(before, id);
        let rest = Tree::removed(before, id);
        let now = Tree::removed(list, id);
        assert forall|x: RegionId| #[trigger] now.contains(x) <==> list.contains(x) && x != id by {
            if now.contains(x) {
                let k = choose|k: int| 0 <= k < now.len() && now[k] == x;
                if k < rest.len() {
                    assert(rest[k] == x);
                    assert(rest.contains(x));
                    let j = choose|j: int| 0 <= j < before.len() && before[j] == x;
                    assert(list[j] == x);
                } else {
                    assert(list[list.len() - 1] == x);
                }
            }
            if list.contains(x) && x != id {
                let j = choose|j: int| 0 <= j < list.len() && list[j] == x;
                if j < before.len() {
                    assert(before[j] == x);
                    assert(rest.contains(x));
                    let k = choose|k: int| 0 <= k < rest.len() && rest[k] == x;
                    assert(now[k] == x);
                } else {
                    assert(now[rest.len() as int] == x);
                }
            }
        }
        if list.no_duplicates() {
            assert(before.no_duplicates());
            if list.last() != id {
                assert forall|j: int, k: int| 0 <= j < k < now.len() implies now[j] != now[k] by {
                    if k == rest.len() {
                        assert(rest.contains(rest[j]));
                        assert(before.contains(rest[j]));
                        let m = choose|m: int| 0 <= m < before.len() && before[m] == rest[j];
                        assert(list[m] == rest[j]);
                    }
                }
            }
        }
        if !list.contains(id) {
            assert(list.last() != id) by {
                assert(list.contains(list.last()));
            }
            assert(!before.contains(id)) by {
                if before.contains(id) {
                    let m = choose|m: int| 0 <= m < before.len() && before[m] == id;
                    assert(list[m] == id);
                }
            }
            assert(now =~= list);
        }
    }
}

/// Only the root is at the top.
proof fn lemma_level_zero(t: Tree, x: int)
    requires
        t.wf(),
        0 <= x < t.regions.len(),
    ensures
        t.regions[x].level == 0 <==> x == 0,
{
    assert(t.region_wf(x));
}

/// What lies above is not deeper, and as deep only where it is the same.
proof fn lemma_above_level(t: Tree, a: int, x: int)
    requires
        t.wf(),
        0 <= x < t.regions.len(),
        t.is_above(a, x),
    ensures
        0 <= a <= x,
        t.regions[a].level <= t.regions[x].level,
        t.regions[a].level == t.regions[x].level ==> a == x,
    decreases x,
{
    assert(t.region_wf(x));
    if a != x {
        lemma_above_level(t, a, t.regions[x].parent->Some_0.0 as int);
    }
}

proof fn lemma_above_antisymmetric(t: Tree, a: int, b: int)
    requires
        t.wf(),
        0 <= a < t.regions.len(),
        0 <= b < t.regions.len(),
        t.is_above(a, b),
        t.is_above(b, a),
    ensures
        a == b,
{
    lemma_above_level(t, a, b);
    lemma_above_level(t, b, a);
}

// ---------------------------------------------------------------------------
// Laws
// ---------------------------------------------------------------------------

/// The root lies above every region.
pub proof fn law_root_is_above(t: Tree, x: int)
    requires
        t.wf(),
        0 <= x < t.regions.len(),
    ensures
        t.is_above(0, x),
    decreases x,
{
    assert(t.region_wf(x));
    if x > 0 {
        law_root_is_above(t, t.regions[x].parent->Some_0.0 as int);
    }
}

/// Lying above is passed on.
pub proof fn law_above_is_transitive(t: Tree, a: int, b: int, c: int)
    requires
        t.wf(),
        0 <= c < t.regions.len(),
        t.is_above(a, b),
        t.is_above(b, c),
    ensures
        t.is_above(a, c),
    decreases c,
{
    assert(t.region_wf(c));
    if b != c {
        law_above_is_transitive(t, a, b, t.regions[c].parent->Some_0.0 as int);
    }
}

/// Leaving a region that was just entered leads back to where it was entered
/// from, one level up. The tree is as before, but for the new region, which
/// is empty and clean, and which its parent lists last.
pub proof fn law_exit_undoes_enter(t: Tree)
    requires
        t.wf(),
        t.regions.len() < usize::MAX,
    ensures
        t.entered().exited().current == t.current,
        t.entered().exited().root == t.root,
        t.entered().exited().regions.len() == t.regions.len() + 1,
        t.entered().exited().regions.last() == Region::fresh(
            t.regions.len() as usize,
            (t.regions[t.current.0 as int].level + 1) as usize,
            Some(t.current),
        ),
        forall|x: int|
            0 <= x < t.regions.len() ==> #[trigger] t.entered().exited().regions[x] == if x
                == t.current.0 {
                Region {
                    children: t.regions[x].children.push(RegionId(t.regions.len() as usize)),
                    ..t.regions[x]
                }
            } else {
                t.regions[x]
            },
        t.entered().regions[t.entered().current.0 as int].level
            == t.regions[t.current.0 as int].level + 1,
        t.entered().is_above(t.current.0 as int, t.entered().current.0 as int),
{
    assert(t.region_wf(t.current.0 as int));
    let e = t.entered();
    assert(e.is_above(t.current.0 as int, t.current.0 as int));
}

/// The region that is marked is dirty, and so are those above it; no other
/// changes its state.
pub proof fn law_marking_reaches_up(t: Tree, id: RegionId, x: int)
    requires
        t.wf(),
        id.0 < t.regions.len(),
        0 <= x < t.regions.len(),
    ensures
        t.marked(id).regions[x].dirty == (t.regions[x].dirty || t.is_above(x, id.0 as int)),
    decreases id.0,
{
    assert(t.region_wf(id.0 as int));
    lemma_marked(t, id);
    if t.regions[id.0 as int].dirty {
        if t.is_above(x, id.0 as int) {
            lemma_dirty_above(t, x, id.0 as int);
        }
    } else if let Some(p) = t.regions[id.0 as int].parent {
        lemma_marked(t, p);
        law_marking_reaches_up(t, p, x);
    }
}

/// Each region of the list comes before those of the list that lie below it.
pub open spec fn outermost_first(t: Tree, ids: Seq<RegionId>) -> bool {
    forall|i: int, j: int|
        0 <= i < ids.len() && 0 <= j < ids.len() && i != j && t.is_above(
            (#[trigger] ids[i]).0 as int,
            (#[trigger] ids[j]).0 as int,
        ) ==> i < j
}

/// Whatever is done with the regions, a clean one is passed over, and a dirty
/// one comes after those below it that wait.
pub proof fn law_draining_order<P: RegionProcessor>(p: P, t: Tree, id: RegionId)
    ensures
        !t.regions[id.0 as int].dirty ==> drained(p, t, id) == (p, t),
        t.regions[id.0 as int].dirty ==> ({
            let below = t.regions[id.0 as int].dirty_children;
            let (q, u) = drained_all(p, t, id, below, below.len());
            let (r, v) = q.after(id, u);
            drained(p, t, id) == (r, v.cleaned(id))
        }),
{
}

/// Draining from a region leaves neither it nor a region below it dirty, and
/// notes each of them that was dirty, once, after all those below it; what was
/// noted last stands first. The other regions stay as dirty as they were.
pub proof fn law_draining_cleans(noted: Noted, t: Tree, id: RegionId) -> (fresh: Seq<RegionId>)
    requires
        t.wf(),
        id.0 < t.regions.len(),
    ensures
        drained(noted, t, id).0.ids@ == fresh + noted.ids@,
        fresh.no_duplicates(),
        outermost_first(t, fresh),
        forall|x: RegionId| #[trigger]
            fresh.contains(x) <==> x.0 < t.regions.len() && t.is_above(id.0 as int, x.0 as int)
                && t.regions[x.0 as int].dirty,
        forall|x: int|
            0 <= x < t.regions.len() ==> (#[trigger] drained(noted, t, id).1.regions[x]).dirty == (
            t.regions[x].dirty && !t.is_above(id.0 as int, x)),
{
    if t.regions[id.0 as int].dirty {
        lemma_drained(noted, t, id)
    } else {
        let fresh = Seq::<RegionId>::empty();
        assert forall|x: int|
            0 <= x < t.regions.len() && t.is_above(id.0 as int, x) implies !(
        #[trigger] t.regions[x]).dirty by {
            if t.regions[x].dirty {
                lemma_dirty_above(t, id.0 as int, x);
            }
        }
        assert(fresh + noted.ids@ =~= noted.ids@);
        fresh
    }
}

/// Above a dirty region every region is dirty.
proof fn lemma_dirty_above(t: Tree, a: int, x: int)
    requires
        t.wf(),
        0 <= x < t.regions.len(),
        t.regions[x].dirty,
        t.is_above(a, x),
    ensures
        t.regions[a].dirty,
    decreases x,
{
    assert(t.region_wf(x));
    if a != x {
        lemma_dirty_above(t, a, t.regions[x].parent->Some_0.0 as int);
    }
}

/// Marking keeps the tree well-formed, and changes nothing but the state of
/// the regions above.
proof fn lemma_marked(t: Tree, id: RegionId)
    requires
        t.wf(),
        id.0 < t.regions.len(),
    ensures
        t.marked(id).wf(),
        t.marked(id).regions.len() == t.regions.len(),
        t.marked(id).root == t.root,
        t.marked(id).current == t.current,
        t.marked(id).regions[id.0 as int].dirty,
        forall|x: int|
            0 <= x < t.regions.len() ==> (#[trigger] t.marked(id).regions[x]).parent
                == t.regions[x].parent && t.marked(id).regions[x].id == t.regions[x].id,
        forall|x: int| id.0 < x < t.regions.len() ==> #[trigger] t.marked(id).regions[x] == t.regions[x],
    decreases id.0,
{
    let i = id.0 as int;
    assert(t.region_wf(i));
    if !t.regions[i].dirty {
        let m = t.marked(id);
        match t.regions[i].parent {
            Some(p) => {
                lemma_marked(t, p);
                let u = t.marked(p);
                assert(u.regions[i] == t.regions[i]);
                let list = u.regions[p.0 as int].dirty_children;
                assert(u.region_wf(p.0 as int));
                assert(!list.contains(id)) by {
                    if list.contains(id) {
                        let k = choose|k: int| 0 <= k < list.len() && list[k] == id;
                        assert(u.lists(p.0 as int, list[k]));
                    }
                }
                assert forall|x: int| 0 <= x < m.regions.len() implies #[trigger] m.region_wf(x) by {
                    assert(u.region_wf(x));
                    let r = m.regions[x];
                    if x == p.0 {
                        assert(r.dirty_children == list.push(id));
                    } else {
                        assert(r.dirty_children == u.regions[x].dirty_children);
                    }
                    assert forall|k: int| 0 <= k < r.dirty_children.len() implies m.lists(
                        x,
                        #[trigger] r.dirty_children[k],
                    ) by {
                        if x == p.0 && k == list.len() {
                            assert(r.dirty_children[k] == id);
                        } else {
                            assert(r.dirty_children[k] == u.regions[x].dirty_children[k]);
                            assert(u.lists(x, u.regions[x].dirty_children[k]));
                        }
                    }
                    if x == p.0 {
                        assert(r.dirty_children.no_duplicates()) by {
                            assert forall|j: int, k: int|
                                0 <= j < k < r.dirty_children.len() implies r.dirty_children[j]
                                != r.dirty_children[k] by {
                                if k == list.len() {
                                    assert(list.contains(list[j]));
                                }
                            }
                        }
                    }
                    if r.dirty {
                        if let Some(q) = r.parent {
                            if x == i {
                                assert(m.regions[p.0 as int].dirty_children.last() == id);
                            } else {
                                let was = u.regions[q.0 as int].dirty_children;
                                let k = choose|k: int| 0 <= k < was.len() && was[k] == r.id;
                                assert(m.regions[q.0 as int].dirty_children[k] == r.id);
                            }
                        }
                    }
                }
            },
            None => {
                assert forall|x: int| 0 <= x < m.regions.len() implies #[trigger] m.region_wf(x) by {
                    assert(t.region_wf(x));
                    let r = m.regions[x];
                    assert(r.dirty_children == t.regions[x].dirty_children);
                    assert forall|k: int| 0 <= k < r.dirty_children.len() implies m.lists(
                        x,
                        #[trigger] r.dirty_children[k],
                    ) by {
                        assert(t.lists(x, t.regions[x].dirty_children[k]));
                    }
                }
            },
        }
    }
}

/// Cleaning keeps the tree well-formed.
proof fn lemma_cleaned(t: Tree, id: RegionId)
    requires
        t.wf(),
        id.0 < t.regions.len(),
    ensures
        t.cleaned(id).wf(),
        t.cleaned(id).regions.len() == t.regions.len(),
{
    let i = id.0 as int;
    let m = t.cleaned(id);
    assert(t.region_wf(i));
    if t.regions[i].dirty_children.len() == 0 {
        if let Some(p) = t.regions[i].parent {
            lemma_removed(t.regions[p.0 as int].dirty_children, id);
        }
        assert forall|x: int| 0 <= x < m.regions.len() implies #[trigger] m.region_wf(x) by {
            assert(t.region_wf(x));
            let r = m.regions[x];
            let was = t.regions[x].dirty_children;
            assert forall|k: int| 0 <= k < r.dirty_children.len() implies m.lists(
                x,
                #[trigger] r.dirty_children[k],
            ) by {
                let d = r.dirty_children[k];
                assert(r.dirty_children.contains(d));
                assert(was.contains(d));
                let j = choose|j: int| 0 <= j < was.len() && was[j] == d;
                assert(t.lists(x, was[j]));
                if d.0 == i {
                    assert(d == id);
                }
            }
            if r.dirty {
                if let Some(q) = r.parent {
                    let list = t.regions[q.0 as int].dirty_children;
                    assert(list.contains(r.id));
                    assert(t.regions[i].dirty_children =~= Seq::<RegionId>::empty());
                    assert(q.0 != i);
                    assert(r.id != id);
                }
            }
        }
    }
}

impl Region {
    /// The region with nothing to be processed.
    spec fn clean(self) -> Region {
        Region { dirty: false, dirty_children: Seq::empty(), ..self }
    }
}

impl Tree {
    /// The tree once all below a region is clean.
    spec fn settled(self, id: RegionId) -> Tree {
        Tree {
            regions: Seq::new(
                self.regions.len(),
                |x: int|
                    {
                        let r = self.regions[x];
                        if self.is_above(id.0 as int, x) {
                            r.clean()
                        } else if self.regions[id.0 as int].parent == Some(RegionId(x as usize)) {
                            Region { dirty_children: Tree::removed(r.dirty_children, id), ..r }
                        } else {
                            r
                        }
                    },
            ),
            ..self
        }
    }

    /// A region lies below one of the first `n` that another lists.
    spec fn below_first(self, id: RegionId, n: int, x: int) -> bool {
        exists|k: int| 0 <= k < n && self.below_listed(id, k, x)
    }

    spec fn below_listed(self, id: RegionId, k: int, x: int) -> bool {
        self.is_above(self.regions[id.0 as int].dirty_children[k].0 as int, x)
    }

    /// The tree once all below the first `n` that a region lists is clean.
    spec fn settled_below(self, id: RegionId, n: int) -> Tree {
        Tree {
            regions: Seq::new(
                self.regions.len(),
                |x: int|
                    {
                        let r = self.regions[x];
                        if self.below_first(id, n, x) {
                            r.clean()
                        } else if x == id.0 {
                            Region { dirty_children: r.dirty_children.skip(n), ..r }
                        } else {
                            r
                        }
                    },
            ),
            ..self
        }
    }
}

/// What lies above depends on the parents alone.
proof fn lemma_above_same(t: Tree, u: Tree, a: int, x: int)
    requires
        t.wf(),
        u.regions.len() == t.regions.len(),
        forall|y: int|
            0 <= y < t.regions.len() ==> (#[trigger] u.regions[y]).parent == t.regions[y].parent,
        0 <= x < t.regions.len(),
    ensures
        t.is_above(a, x) == u.is_above(a, x),
    decreases x,
{
    assert(t.region_wf(x));
    assert(u.regions[x].parent == t.regions[x].parent);
    if x > 0 {
        lemma_above_same(t, u, a, t.regions[x].parent->Some_0.0 as int);
    }
}

/// Two children of one region have nothing below in common.
proof fn lemma_apart(t: Tree, a: int, b: int, x: int)
    requires
        t.wf(),
        0 <= a < t.regions.len(),
        0 <= b < t.regions.len(),
        0 <= x < t.regions.len(),
        t.regions[a].parent is Some,
        t.regions[a].parent == t.regions[b].parent,
        t.is_above(a, x),
        t.is_above(b, x),
    ensures
        a == b,
    decreases x,
{
    assert(t.region_wf(x));
    assert(t.region_wf(a));
    assert(t.region_wf(b));
    if a == x && b != x {
        lemma_above_level(t, b, t.regions[x].parent->Some_0.0 as int);
    } else if b == x && a != x {
        lemma_above_level(t, a, t.regions[x].parent->Some_0.0 as int);
    } else if a != x && b != x {
        lemma_apart(t, a, b, t.regions[x].parent->Some_0.0 as int);
    }
}

/// The child of a region on the way to one below it.
proof fn lemma_toward(t: Tree, a: int, x: int) -> (c: int)
    requires
        t.wf(),
        0 <= a < t.regions.len(),
        0 <= x < t.regions.len(),
        t.is_above(a, x),
        a != x,
    ensures
        0 <= c < t.regions.len(),
        t.regions[c].parent == Some(t.regions[a].id),
        t.is_above(c, x),
    decreases x,
{
    assert(t.region_wf(x));
    assert(t.region_wf(a));
    let p = t.regions[x].parent->Some_0;
    if p.0 == a {
        assert(p == t.regions[a].id);
        x
    } else {
        assert(t.region_wf(p.0 as int));
        lemma_toward(t, a, p.0 as int)
    }
}

/// A list without its first item.
proof fn lemma_removed_first(list: Seq<RegionId>)
    requires
        list.len() > 0,
        list.no_duplicates(),
    ensures
        Tree::removed(list, list[0]) == list.skip(1),
    decreases list.len(),
{
    let id = list[0];
    let before = list.drop_last();
    if list.len() == 1 {
        assert(before =~= Seq::<RegionId>::empty());
        assert(Tree::removed(before, id) =~= Seq::<RegionId>::empty());
        assert(list.skip(1) =~= Seq::<RegionId>::empty());
    } else {
        assert(before[0] == id);
        lemma_removed_first(before);
        assert(list.last() != id);
        assert(list.skip(1) =~= before.skip(1).push(list.last()));
    }
}

/// Draining a dirty region cleans all below it, and notes what was dirty there.
proof fn lemma_drained(noted: Noted, t: Tree, id: RegionId) -> (fresh: Seq<RegionId>)
    requires
        t.wf(),
        id.0 < t.regions.len(),
        t.regions[id.0 as int].dirty,
    ensures
        drained(noted, t, id).1 == t.settled(id),
        drained(noted, t, id).1.wf(),
        drained(noted, t, id).0.ids@ == fresh + noted.ids@,
        fresh.no_duplicates(),
        outermost_first(t, fresh),
        forall|x: RegionId| #[trigger]
            fresh.contains(x) <==> x.0 < t.regions.len() && t.is_above(id.0 as int, x.0 as int)
                && t.regions[x.0 as int].dirty,
    decreases usize::MAX - id.0, 1nat, 0nat,
{
    let i = id.0 as int;
    let list = t.regions[i].dirty_children;
    assert(t.region_wf(i));
    let first = lemma_drained_all(noted, t, id, list.len());
    let (q, u) = drained_all(noted, t, id, list, list.len());
    assert(u.regions[i].dirty_children =~= Seq::<RegionId>::empty()) by {
        assert(!t.below_first(id, list.len() as int, i)) by {
            if t.below_first(id, list.len() as int, i) {
                let k = choose|k: int| 0 <= k < list.len() && t.below_listed(id, k, i);
                assert(t.lists(i, list[k]));
                lemma_above_level(t, list[k].0 as int, i);
            }
        }
    }
    let v = u.cleaned(id);
    assert(drained(noted, t, id) == (Noted { ids: q.ids.cons(id) }, v));
    lemma_cleaned(u, id);
    let want = t.settled(id);
    assert forall|x: int| 0 <= x < t.regions.len() implies #[trigger] v.regions[x]
        == want.regions[x] by {
        assert(t.region_wf(x));
        let r = t.regions[x];
        if x == i {
            assert(v.regions[x] == r.clean());
        } else if t.is_above(i, x) {
            let c = lemma_toward(t, i, x);
            assert(t.region_wf(c));
            if t.regions[c].dirty {
                let k = choose|k: int| 0 <= k < list.len() && list[k] == t.regions[c].id;
                assert(t.below_listed(id, k, x));
                assert(t.below_first(id, list.len() as int, x));
                assert(u.regions[x] == r.clean());
            } else {
                if r.dirty {
                    lemma_dirty_above(t, c, x);
                }
                assert(r.dirty_children =~= Seq::<RegionId>::empty()) by {
                    if r.dirty_children.len() > 0 {
                        assert(t.lists(x, r.dirty_children[0]));
                    }
                }
                assert(r == r.clean());
                assert(u.regions[x] == r);
            }
            if let Some(p) = t.regions[i].parent {
                if p.0 == x {
                    lemma_above_level(t, i, x);
                }
            }
        } else {
            assert(!t.below_first(id, list.len() as int, x)) by {
                if t.below_first(id, list.len() as int, x) {
                    let k = choose|k: int| 0 <= k < list.len() && t.below_listed(id, k, x);
                    assert(t.lists(i, list[k]));
                    assert(t.is_above(i, list[k].0 as int)) by {
                        assert(t.is_above(i, i));
                    }
                    law_above_is_transitive(t, i, list[k].0 as int, x);
                }
            }
            assert(u.regions[x] == r);
        }
    }
    assert(v.regions =~= want.regions);
    let fresh = seq![id] + first;
    assert(q.ids.cons(id)@ == seq![id] + q.ids@);
    assert(seq![id] + (first + noted.ids@) =~= fresh + noted.ids@);
    assert forall|x: RegionId| #[trigger] fresh.contains(x) <==> x.0 < t.regions.len()
        && t.is_above(i, x.0 as int) && t.regions[x.0 as int].dirty by {
        if fresh.contains(x) {
            let k = choose|k: int| 0 <= k < fresh.len() && fresh[k] == x;
            if k > 0 {
                assert(first[k - 1] == x);
                assert(first.contains(x));
                let j = choose|j: int| 0 <= j < list.len() && t.below_listed(id, j, x.0 as int);
                assert(t.lists(i, list[j]));
                assert(t.is_above(i, i));
                law_above_is_transitive(t, i, list[j].0 as int, x.0 as int);
            }
        }
        if x.0 < t.regions.len() && t.is_above(i, x.0 as int) && t.regions[x.0 as int].dirty {
            if x.0 == i {
                assert(fresh[0] == x);
            } else {
                let c = lemma_toward(t, i, x.0 as int);
                assert(t.region_wf(c));
                lemma_dirty_above(t, c, x.0 as int);
                let k = choose|k: int| 0 <= k < list.len() && list[k] == t.regions[c].id;
                assert(t.below_listed(id, k, x.0 as int));
                assert(first.contains(x));
                let j = choose|j: int| 0 <= j < first.len() && first[j] == x;
                assert(fresh[j + 1] == x);
            }
        }
    }
    assert(fresh.no_duplicates()) by {
        assert forall|j: int, k: int| 0 <= j < k < fresh.len() implies fresh[j] != fresh[k] by {
            if j == 0 {
                assert(fresh[k] == first[k - 1]);
                assert(first.contains(first[k - 1]));
                if first[k - 1] == id {
                    let m = choose|m: int| 0 <= m < list.len() && t.below_listed(id, m, i);
                    assert(t.lists(i, list[m]));
                    lemma_above_level(t, list[m].0 as int, i);
                }
            } else {
                assert(fresh[j] == first[j - 1]);
                assert(fresh[k] == first[k - 1]);
            }
        }
    }
    assert forall|j: int, k: int|
        0 <= j < fresh.len() && 0 <= k < fresh.len() && j != k && t.is_above(
            (#[trigger] fresh[j]).0 as int,
            (#[trigger] fresh[k]).0 as int,
        ) implies j < k by {
        if k == 0 {
            assert(fresh.contains(fresh[j]));
            lemma_above_antisymmetric(t, i, fresh[j].0 as int);
        } else if j > 0 {
            assert(fresh[j] == first[j - 1] && fresh[k] == first[k - 1]);
        }
    }
    fresh
}

/// Draining the first `n` regions that a dirty region lists.
proof fn lemma_drained_all(noted: Noted, t: Tree, id: RegionId, n: nat) -> (fresh: Seq<RegionId>)
    requires
        t.wf(),
        id.0 < t.regions.len(),
        n <= t.regions[id.0 as int].dirty_children.len(),
    ensures
        ({
            let list = t.regions[id.0 as int].dirty_children;
            let (q, u) = drained_all(noted, t, id, list, n);
            &&& u == t.settled_below(id, n as int)
            &&& u.wf()
            &&& q.ids@ == fresh + noted.ids@
        }),
        fresh.no_duplicates(),
        outermost_first(t, fresh),
        forall|x: RegionId| #[trigger]
            fresh.contains(x) <==> x.0 < t.regions.len() && t.below_first(
                id,
                n as int,
                x.0 as int,
            ) && t.regions[x.0 as int].dirty,
    decreases usize::MAX - id.0, 0nat, n,
{
    let i = id.0 as int;
    let list = t.regions[i].dirty_children;
    assert(t.region_wf(i));
    if n == 0 {
        let fresh = Seq::<RegionId>::empty();
        assert(list.skip(0) =~= list);
        assert(t.settled_below(id, 0).regions =~= t.regions);
        assert(fresh + noted.ids@ =~= noted.ids@);
        fresh
    } else {
        let m = (n - 1) as nat;
        let first = lemma_drained_all(noted, t, id, m);
        let (q, u) = drained_all(noted, t, id, list, m);
        let child = list[m as int];
        let c = child.0 as int;
        assert(t.lists(i, child));
        assert forall|y: int| 0 <= y < t.regions.len() implies (#[trigger] u.regions[y]).parent
            == t.regions[y].parent by {
        }
        assert forall|x: int| 0 <= x < t.regions.len() && #[trigger] t.below_first(
            id,
            m as int,
            x,
        ) implies !t.is_above(c, x) && x != i by {
            let k = choose|k: int| 0 <= k < m && t.below_listed(id, k, x);
            assert(t.lists(i, list[k]));
            if t.is_above(c, x) {
                lemma_apart(t, list[k].0 as int, c, x);
                assert(list[k] == child);
            }
            lemma_above_level(t, list[k].0 as int, x);
        }
        assert(t.is_above(c, c));
        assert(u.regions[c] == t.regions[c]);
        let more = lemma_drained(q, u, child);
        let v = drained(q, u, child).1;
        let want = t.settled_below(id, n as int);
        assert forall|x: int| 0 <= x < t.regions.len() implies #[trigger] v.regions[x]
            == want.regions[x] by {
            lemma_above_same(t, u, c, x);
            assert(t.region_wf(x));
            let r = t.regions[x];
            assert(v.regions[x] == u.settled(child).regions[x]);
            if t.is_above(c, x) {
                assert(!t.below_first(id, m as int, x));
                if x == i {
                    lemma_above_level(t, c, x);
                }
                assert(u.regions[x] == r);
                assert(t.below_listed(id, m as int, x));
                assert(t.below_first(id, n as int, x));
                assert(v.regions[x] == r.clean());
            } else {
                assert(t.below_first(id, n as int, x) == t.below_first(id, m as int, x)) by {
                    if t.below_first(id, n as int, x) {
                        let k = choose|k: int| 0 <= k < n && t.below_listed(id, k, x);
                        assert(k < m);
                    }
                    if t.below_first(id, m as int, x) {
                        let k = choose|k: int| 0 <= k < m && t.below_listed(id, k, x);
                        assert(k < n);
                    }
                }
                if x == i {
                    assert(u.regions[c].parent == Some(RegionId(x as usize)));
                    let rest = list.skip(m as int);
                    assert(u.regions[x].dirty_children == rest);
                    assert(rest[0] == child);
                    lemma_removed_first(rest);
                    assert(rest.skip(1) =~= list.skip(n as int));
                }
            }
        }
        assert(v.regions =~= want.regions);
        let fresh = more + first;
        assert(more + (first + noted.ids@) =~= fresh + noted.ids@);
        assert forall|x: RegionId| #[trigger] more.contains(x) <==> x.0 < t.regions.len()
            && t.is_above(c, x.0 as int) && t.regions[x.0 as int].dirty by {
            if x.0 < t.regions.len() {
                lemma_above_same(t, u, c, x.0 as int);
                if t.is_above(c, x.0 as int) {
                    assert(u.regions[x.0 as int] == t.regions[x.0 as int] || x.0 == i);
                    if x.0 == i {
                        lemma_above_level(t, c, i);
                    }
                }
            }
        }
        assert forall|x: RegionId| #[trigger] fresh.contains(x) <==> x.0 < t.regions.len()
            && t.below_first(id, n as int, x.0 as int) && t.regions[x.0 as int].dirty by {
            if fresh.contains(x) {
                let k = choose|k: int| 0 <= k < fresh.len() && fresh[k] == x;
                if k < more.len() {
                    assert(more[k] == x);
                    assert(more.contains(x));
                    assert(t.below_listed(id, m as int, x.0 as int));
                } else {
                    assert(first[k - more.len()] == x);
                    assert(first.contains(x));
                    let j = choose|j: int| 0 <= j < m && t.below_listed(id, j, x.0 as int);
                    assert(j < n);
                }
            }
            if x.0 < t.regions.len() && t.below_first(id, n as int, x.0 as int)
                && t.regions[x.0 as int].dirty {
                let j = choose|j: int| 0 <= j < n && t.below_listed(id, j, x.0 as int);
                if j == m {
                    assert(more.contains(x));
                    let k = choose|k: int| 0 <= k < more.len() && more[k] == x;
                    assert(fresh[k] == x);
                } else {
                    assert(t.below_first(id, m as int, x.0 as int));
                    assert(first.contains(x));
                    let k = choose|k: int| 0 <= k < first.len() && first[k] == x;
                    assert(fresh[more.len() + k] == x);
                }
            }
        }
        assert(fresh.no_duplicates()) by {
            assert forall|j: int, k: int| 0 <= j < k < fresh.len() implies fresh[j] != fresh[k] by {
                if j < more.len() && k >= more.len() {
                    let x = first[k - more.len()];
                    assert(more.contains(more[j]));
                    assert(first.contains(x));
                    assert(t.below_first(id, m as int, x.0 as int));
                    assert(!t.is_above(c, x.0 as int));
                }
            }
        }
        assert forall|j: int, k: int|
            0 <= j < fresh.len() && 0 <= k < fresh.len() && j != k && t.is_above(
                (#[trigger] fresh[j]).0 as int,
                (#[trigger] fresh[k]).0 as int,
            ) implies j < k by {
            if k < more.len() {
                let y = more[k].0 as int;
                assert(more.contains(more[k]));
                if j < more.len() {
                    assert(more.contains(more[j]));
                    lemma_above_same(t, u, more[j].0 as int, y);
                } else {
                    let x = first[j - more.len()].0 as int;
                    assert(first.contains(first[j - more.len()]));
                    let l = choose|l: int| 0 <= l < m && t.below_listed(id, l, x);
                    law_above_is_transitive(t, list[l].0 as int, x, y);
                    assert(t.below_listed(id, l, y));
                    assert(t.below_first(id, m as int, y));
                    assert(!t.is_above(c, y));
                }
            } else if j >= more.len() {
                assert(fresh[j] == first[j - more.len()] && fresh[k] == first[k - more.len()]);
            }
        }
        fresh
    }
}

// ---------------------------------------------------------------------------
// Any processor
// ---------------------------------------------------------------------------

/// Processing leaves the tree as it is.
pub open spec fn keeps_tree<P: RegionProcessor>() -> bool {
    forall|p: P, id: RegionId, t: Tree| (#[trigger] p.after(id, t)).1 == t
}

/// The regions that are processed where processing leaves the tree as it is, in
/// order, each with the tree as it is then; and the tree in the end.
pub open spec fn visits(t: Tree, id: RegionId) -> (Seq<(RegionId, Tree)>, Tree)
    decreases usize::MAX - id.0, 1nat, 0nat,
{
    if !t.regions[id.0 as int].dirty {
        (Seq::empty(), t)
    } else {
        let children = t.regions[id.0 as int].dirty_children;
        let (v, u) = visits_all(t, id, children, children.len());
        (v.push((id, u)), u.cleaned(id))
    }
}

/// Those of the first `n` of the regions below `id`.
pub open spec fn visits_all(t: Tree, id: RegionId, list: Seq<RegionId>, n: nat) -> (
    Seq<(RegionId, Tree)>,
    Tree,
)
    decreases usize::MAX - id.0, 0nat, n,
{
    if n == 0 || n > list.len() {
        (Seq::empty(), t)
    } else {
        let (v, u) = visits_all(t, id, list, (n - 1) as nat);
        if list[n - 1].0 > id.0 {
            let (w, x) = visits(u, list[n - 1]);
            (v + w, x)
        } else {
            (v, u)
        }
    }
}

/// A processor after some regions, one after the other.
pub open spec fn processed<P: RegionProcessor>(p: P, v: Seq<(RegionId, Tree)>) -> P
    decreases v.len(),
{
    if v.len() == 0 {
        p
    } else {
        processed(p, v.drop_last()).after(v.last().0, v.last().1).0
    }
}

proof fn lemma_processed_more<P: RegionProcessor>(
    p: P,
    v: Seq<(RegionId, Tree)>,
    w: Seq<(RegionId, Tree)>,
)
    ensures
        processed(p, v + w) == processed(processed(p, v), w),
    decreases w.len(),
{
    if w.len() == 0 {
        assert(v + w =~= v);
    } else {
        assert((v + w).drop_last() =~= v + w.drop_last());
        assert((v + w).last() == w.last());
        lemma_processed_more(p, v, w.drop_last());
    }
}

proof fn lemma_drained_visits<P: RegionProcessor>(p: P, t: Tree, id: RegionId)
    requires
        keeps_tree::<P>(),
    ensures
        drained(p, t, id) == (processed(p, visits(t, id).0), visits(t, id).1),
    decreases usize::MAX - id.0, 1nat, 0nat,
{
    if t.regions[id.0 as int].dirty {
        let children = t.regions[id.0 as int].dirty_children;
        lemma_drained_all_visits(p, t, id, children, children.len());
        let (v, u) = visits_all(t, id, children, children.len());
        assert(v.push((id, u)).drop_last() =~= v);
        assert(processed(p, v).after(id, u).1 == u);
    }
}

proof fn lemma_drained_all_visits<P: RegionProcessor>(
    p: P,
    t: Tree,
    id: RegionId,
    list: Seq<RegionId>,
    n: nat,
)
    requires
        keeps_tree::<P>(),
    ensures
        drained_all(p, t, id, list, n) == (
            processed(p, visits_all(t, id, list, n).0),
            visits_all(t, id, list, n).1,
        ),
    decreases usize::MAX - id.0, 0nat, n,
{
    if n > 0 && n <= list.len() {
        lemma_drained_all_visits(p, t, id, list, (n - 1) as nat);
        let (v, u) = visits_all(t, id, list, (n - 1) as nat);
        if list[n - 1].0 > id.0 {
            lemma_drained_visits(processed(p, v), u, list[n - 1]);
            lemma_processed_more(p, v, visits(u, list[n - 1]).0);
        }
    }
}

/// The regions of some visits, the last first.
pub open spec fn backwards(v: Seq<(RegionId, Tree)>) -> Seq<RegionId> {
    Seq::new(v.len(), |i: int| v[v.len() - 1 - i].0)
}

proof fn lemma_noted_visits(noted: Noted, v: Seq<(RegionId, Tree)>)
    ensures
        processed(noted, v).ids@ == backwards(v) + noted.ids@,
    decreases v.len(),
{
    if v.len() > 0 {
        lemma_noted_visits(noted, v.drop_last());
        let before = processed(noted, v.drop_last()).ids;
        assert(before.cons(v.last().0)@ == seq![v.last().0] + before@);
        assert(seq![v.last().0] + (backwards(v.drop_last()) + noted.ids@) =~= backwards(v)
            + noted.ids@);
    } else {
        assert(backwards(v) + noted.ids@ =~= noted.ids@);
    }
}

/// A processor that leaves the tree as it is is given each dirty region from
/// where draining begins, once, and each after all the dirty ones below it; the
/// tree is then clean from there on.
pub proof fn law_processing_order<P: RegionProcessor>(p: P, t: Tree, id: RegionId)
    requires
        keeps_tree::<P>(),
        t.wf(),
        id.0 < t.regions.len(),
    ensures
        drained(p, t, id).0 == processed(p, visits(t, id).0),
        backwards(visits(t, id).0).no_duplicates(),
        outermost_first(t, backwards(visits(t, id).0)),
        forall|x: RegionId| #[trigger]
            backwards(visits(t, id).0).contains(x) <==> x.0 < t.regions.len() && t.is_above(
                id.0 as int,
                x.0 as int,
            ) && t.regions[x.0 as int].dirty,
        forall|x: int|
            0 <= x < t.regions.len() ==> (#[trigger] drained(p, t, id).1.regions[x]).dirty == (
            t.regions[x].dirty && !t.is_above(id.0 as int, x)),
{
    let none = Noted { ids: List::Nil };
    assert(keeps_tree::<Noted>());
    lemma_drained_visits(p, t, id);
    lemma_drained_visits(none, t, id);
    lemma_noted_visits(none, visits(t, id).0);
    let fresh = law_draining_cleans(none, t, id);
    assert(none.ids@ =~= Seq::<RegionId>::empty());
    assert(fresh + none.ids@ =~= fresh);
    assert(backwards(visits(t, id).0) + none.ids@ =~= backwards(visits(t, id).0));
}

/// The picked regions are those for which the condition holds, each once, in the order of
/// their numbers.
proof fn lemma_picked(t: Tree, pick: spec_fn(Region) -> bool, n: nat)
    requires
        t.wf(),
        n <= t.regions.len(),
    ensures
        forall|i: int|
            0 <= i < n ==> (pick(#[trigger] t.regions[i]) <==> picked(t.regions, pick, n).contains(
                t.regions[i].id,
            )),
        forall|k: int|
            0 <= k < picked(t.regions, pick, n).len() ==> (#[trigger] picked(
                t.regions,
                pick,
                n,
            )[k]).0 < n,
        forall|k: int, l: int|
            0 <= k < l < picked(t.regions, pick, n).len() ==> (#[trigger] picked(
                t.regions,
                pick,
                n,
            )[k]).0 < (#[trigger] picked(t.regions, pick, n)[l]).0,
    decreases n,
{
    if n > 0 {
        let m = (n - 1) as nat;
        let before = picked(t.regions, pick, m);
        let now = picked(t.regions, pick, n);
        lemma_picked(t, pick, m);
        assert(t.region_wf(n - 1));
        assert forall|i: int| 0 <= i < n implies (pick(#[trigger] t.regions[i])
            <==> now.contains(t.regions[i].id)) by {
            let id = t.regions[i].id;
            assert(t.region_wf(i));
            if i < m {
                if before.contains(id) {
                    let k = before.index_of(id);
                    assert(now[k] == id);
                }
                if now.contains(id) {
                    let k = now.index_of(id);
                    assert(k < before.len());
                    assert(before[k] == id);
                }
            } else if pick(t.regions[i]) {
                assert(now[before.len() as int] == id);
            } else if now.contains(id) {
                let k = now.index_of(id);
                assert(before[k].0 < m);
            }
        }
    }
}

/// The dirty regions are listed, all of them and no others, in the order of their numbers.
pub proof fn law_dirty_regions_are_listed(t: Tree)
    requires
        t.wf(),
    ensures
        ({
            let list = picked(t.regions, is_dirty(), t.regions.len());
            &&& forall|i: int|
                0 <= i < t.regions.len() ==> ((#[trigger] t.regions[i]).dirty <==> list.contains(
                    t.regions[i].id,
                ))
            &&& forall|k: int| 0 <= k < list.len() ==> (#[trigger] list[k]).0 < t.regions.len()
            &&& forall|k: int, l: int|
                0 <= k < l < list.len() ==> (#[trigger] list[k]).0 < (#[trigger] list[l]).0
        }),
{
    lemma_picked(t, is_dirty(), t.regions.len());
    assert forall|i: int| 0 <= i < t.regions.len() implies ((#[trigger] t.regions[i]).dirty
        <==> picked(t.regions, is_dirty(), t.regions.len()).contains(t.regions[i].id)) by {
        assert(is_dirty()(t.regions[i]) == t.regions[i].dirty);
    }
}

/// The regions with a variable, inference or rigid, are listed, all of them and no others, in
/// the order of their numbers.
pub proof fn law_regions_with_variables_are_listed(t: Tree)
    requires
        t.wf(),
    ensures
        ({
            let list = picked(t.regions, has_vars(), t.regions.len());
            &&& forall|i: int|
                0 <= i < t.regions.len() ==> ((#[trigger] t.regions[i]).vars.len() > 0
                    || t.regions[i].rigid_vars.len() > 0 <==> list.contains(t.regions[i].id))
            &&& forall|k: int| 0 <= k < list.len() ==> (#[trigger] list[k]).0 < t.regions.len()
            &&& forall|k: int, l: int|
                0 <= k < l < list.len() ==> (#[trigger] list[k]).0 < (#[trigger] list[l]).0
        }),
{
    lemma_picked(t, has_vars(), t.regions.len());
    assert forall|i: int| 0 <= i < t.regions.len() implies ((#[trigger] t.regions[i]).vars.len() > 0
        || t.regions[i].rigid_vars.len() > 0 <==> picked(
        t.regions,
        has_vars(),
        t.regions.len(),
    ).contains(t.regions[i].id)) by {
        let r = t.regions[i];
        assert(has_vars()(r) == (r.vars.len() > 0 || r.rigid_vars.len() > 0));
    }
}

} // verus!
