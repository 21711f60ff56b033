//! Render groups.  Widgets are drawn in groups; each window (and any widget that
//! asks for it) starts a new group.  At the end of a frame the groups are put in
//! drawing order: groups that are always on top first, then the group the user
//! last interacted with, then all others, each part keeping creation order.
//!
//! A group's bounds are carried as an opaque value of type `R`; nothing here
//! looks inside them.

use vstd::prelude::*;

verus! {

/// Identifies a render group by its position in the frame's list of groups.
#[derive(Copy, Clone, Debug, PartialEq, Eq, Structural)]
pub struct RendGroup {
    index: u16,
}

impl RendGroup {
    pub closed spec fn spec_index(self) -> nat {
        self.index as nat
    }

    /// The group at the given position.
    pub fn new(index: u16) -> (g: RendGroup)
        ensures
            g.spec_index() == index,
    {
        RendGroup { index }
    }

    /// The position of this group in the frame's list of groups.
    pub fn index(self) -> (i: u16)
        ensures
            i == self.spec_index(),
    {
        self.index
    }
}

/// Groups are identified by their position.
pub proof fn lemma_rend_group_eq(a: RendGroup, b: RendGroup)
    ensures
        a == b <==> a.spec_index() == b.spec_index(),
{
}

impl Default for RendGroup {
    fn default() -> (g: RendGroup)
        ensures
            g.spec_index() == 0,
    {
        RendGroup { index: 0 }
    }
}

/// A render group: its bounds, the id of the widget that started it, its position,
/// the number of widgets created before it started, the number of widgets in it,
/// and whether it is always drawn on top.
pub struct RendGroupDef<R> {
    pub rect: R,
    pub id: String,
    pub group: RendGroup,
    pub start: usize,
    pub num: usize,
    pub always_top: bool,
}

/// The drawing order of render groups: groups that are always on top, then the
/// group `top`, then all others, each part in creation order.
pub open spec fn render_order<R>(defs: Seq<RendGroupDef<R>>, top: RendGroup) -> Seq<RendGroupDef<R>> {
    defs.filter(|d: RendGroupDef<R>| d.always_top)
        + defs.filter(|d: RendGroupDef<R>| !d.always_top && d.group == top)
        + defs.filter(|d: RendGroupDef<R>| !d.always_top && d.group != top)
}

/// Puts the render groups in drawing order: a stable sort of the groups by
/// always-on-top first, then the group `top`, then the rest.
pub fn sort_render_groups<R>(defs: Vec<RendGroupDef<R>>, top: RendGroup) -> (sorted: Vec<RendGroupDef<R>>)
    ensures
        sorted@ == render_order(defs@, top),
{
    let ghost all = defs@;
    let ghost p1 = |d: RendGroupDef<R>| d.always_top;
    let ghost p2 = |d: RendGroupDef<R>| !d.always_top && d.group == top;
    let ghost p3 = |d: RendGroupDef<R>| !d.always_top && d.group != top;
    let total = defs.len();
    let mut rest = defs;
    let mut first: Vec<RendGroupDef<R>> = Vec::new();
    let mut second: Vec<RendGroupDef<R>> = Vec::new();
    let mut third: Vec<RendGroupDef<R>> = Vec::new();
    let mut k: usize = 0;
    proof {
        assert(all.take(0) =~= seq![]);
        assert(all.take(0).filter(p1) =~= seq![]);
        assert(all.take(0).filter(p2) =~= seq![]);
        assert(all.take(0).filter(p3) =~= seq![]);
        assert(rest@ =~= all.skip(0));
    }
    while rest.len() > 0
        invariant
            k <= all.len(),
            all.len() == total,
            rest@ == all.skip(k as int),
            first@ == all.take(k as int).filter(p1),
            second@ == all.take(k as int).filter(p2),
            third@ == all.take(k as int).filter(p3),
            p1 == (|d: RendGroupDef<R>| d.always_top),
            p2 == (|d: RendGroupDef<R>| !d.always_top && d.group == top),
            p3 == (|d: RendGroupDef<R>| !d.always_top && d.group != top),
        decreases rest@.len(),
    {
        let def = rest.remove(0);
        proof {
            assert(def == all[k as int]);
            assert(all.take(k + 1).drop_last() =~= all.take(k as int));
            assert(all.take(k + 1).last() == def);
            assert(all.take(k + 1) =~= all.take(k as int).push(def));
            assert(rest@ =~= all.skip(k + 1));
            all.take(k as int).lemma_filter_push(def, p1);
            all.take(k as int).lemma_filter_push(def, p2);
            all.take(k as int).lemma_filter_push(def, p3);
        }
        if def.always_top {
            first.push(def);
        } else if def.group == top {
            second.push(def);
        } else {
            third.push(def);
        }
        k = k + 1;
    }
    proof {
        assert(all.take(k as int) =~= all);
    }
    first.append(&mut second);
    first.append(&mut third);
    first
}

/// The drawing order holds each render group exactly as often as the frame does.
pub proof fn lemma_render_order_permutes<R>(defs: Seq<RendGroupDef<R>>, top: RendGroup)
    ensures
        render_order(defs, top).to_multiset() =~= defs.to_multiset(),
    decreases defs.len(),
{
    broadcast use vstd::seq_lib::group_seq_properties;
    broadcast use vstd::multiset::group_multiset_axioms;
    let p1 = |d: RendGroupDef<R>| d.always_top;
    let p2 = |d: RendGroupDef<R>| !d.always_top && d.group == top;
    let p3 = |d: RendGroupDef<R>| !d.always_top && d.group != top;
    if defs.len() == 0 {
        assert(render_order(defs, top) =~= seq![]);
    } else {
        let init = defs.drop_last();
        let x = defs.last();
        lemma_render_order_permutes(init, top);
        assert(defs =~= init.push(x));
        init.lemma_filter_push(x, p1);
        init.lemma_filter_push(x, p2);
        init.lemma_filter_push(x, p3);
        vstd::seq_lib::lemma_multiset_commutative(init.filter(p1), init.filter(p2));
        vstd::seq_lib::lemma_multiset_commutative(init.filter(p1) + init.filter(p2), init.filter(p3));
        vstd::seq_lib::lemma_multiset_commutative(defs.filter(p1), defs.filter(p2));
        vstd::seq_lib::lemma_multiset_commutative(defs.filter(p1) + defs.filter(p2), defs.filter(p3));
        init.to_multiset_ensures();
        defs.to_multiset_ensures();
        init.filter(p1).to_multiset_ensures();
        init.filter(p2).to_multiset_ensures();
        init.filter(p3).to_multiset_ensures();
        assert(render_order(init, top) == init.filter(p1) + init.filter(p2) + init.filter(p3));
        assert(render_order(defs, top) == defs.filter(p1) + defs.filter(p2) + defs.filter(p3));
        if x.always_top {
            assert(defs.filter(p1) == init.filter(p1).push(x));
            assert(defs.filter(p2) == init.filter(p2));
            assert(defs.filter(p3) == init.filter(p3));
        } else if x.group == top {
            assert(defs.filter(p1) == init.filter(p1));
            assert(defs.filter(p2) == init.filter(p2).push(x));
            assert(defs.filter(p3) == init.filter(p3));
        } else {
            assert(defs.filter(p1) == init.filter(p1));
            assert(defs.filter(p2) == init.filter(p2));
            assert(defs.filter(p3) == init.filter(p3).push(x));
        }
    }
}

/// The render group, if any, whose id is `id`: the first one in creation order.
pub open spec fn first_with_id<R>(defs: Seq<RendGroupDef<R>>, id: Seq<char>) -> Option<int> {
    if exists|i: int| 0 <= i < defs.len() && defs[i].id@ == id {
        Some(choose|i: int| 0 <= i < defs.len() && defs[i].id@ == id
            && forall|j: int| 0 <= j < i ==> defs[j].id@ != id)
    } else {
        None
    }
}

/// Brings a pending group to the top: if a widget asked for its group to come on top
/// (`pending`) and a group with that id exists, that group becomes the top group and
/// the request is settled.  Otherwise nothing changes.  Returns the new top group and
/// the request still pending.
pub fn check_set_rend_group_top<R>(
    pending: Option<String>,
    top: RendGroup,
    defs: &Vec<RendGroupDef<R>>,
) -> (r: (RendGroup, Option<String>))
    ensures
        match pending {
            None => r == (top, pending),
            Some(id) => match first_with_id(defs@, id@) {
                Some(i) => r.0 == defs@[i].group && r.1 is None,
                None => r == (top, pending),
            },
        },
{
    let id = match &pending {
        None => return (top, pending),
        Some(id) => id,
    };
    let mut i: usize = 0;
    while i < defs.len()
        invariant
            i <= defs@.len(),
            pending == Some(*id),
            forall|j: int| 0 <= j < i ==> defs@[j].id@ != id@,
        decreases defs@.len() - i,
    {
        if defs[i].id == *id {
            proof {
                assert(exists|k: int| 0 <= k < defs@.len() && defs@[k].id@ == id@);
                let c = choose|k: int| 0 <= k < defs@.len() && defs@[k].id@ == id@
                    && forall|j: int| 0 <= j < k ==> defs@[j].id@ != id@;
                assert(0 <= i < defs@.len() && defs@[i as int].id@ == id@
                    && forall|j: int| 0 <= j < i ==> defs@[j].id@ != id@);
                assert(exists|k: int| 0 <= k < defs@.len() && defs@[k].id@ == id@
                    && forall|j: int| 0 <= j < k ==> defs@[j].id@ != id@);
                if c < i {
                } else if c > i {
                    assert(defs@[i as int].id@ != id@);
                }
                assert(c == i);
            }
            return (defs[i].group, None);
        }
        i = i + 1;
    }
    (top, pending)
}

/// The widgets of a render group, given the group of every widget in creation order:
/// starting at the group's `start`, the first `num + 1` widgets that belong to it.
pub open spec fn members(widget_groups: Seq<RendGroup>, start: nat, group: RendGroup, count: nat) -> Seq<int>
    decreases widget_groups.len(),
{
    if widget_groups.len() <= start {
        seq![]
    } else {
        let prior = members(widget_groups.drop_last(), start, group, count);
        if widget_groups.last() == group && prior.len() < count {
            prior.push(widget_groups.len() - 1)
        } else {
            prior
        }
    }
}

/// The positions of the widgets drawn with a render group.
pub fn group_members<R>(widget_groups: &Vec<RendGroup>, def: &RendGroupDef<R>) -> (r: Vec<usize>)
    requires
        def.num < usize::MAX,
    ensures
        r@.map_values(|i: usize| i as int) == members(widget_groups@, def.start as nat, def.group, (def.num + 1) as nat),
{
    let mut r: Vec<usize> = Vec::new();
    let count = def.num + 1;
    let mut i: usize = def.start;
    if i > widget_groups.len() {
        i = widget_groups.len();
    }
    proof {
        assert forall|k: nat| k <= def.start && k <= widget_groups@.len() implies
            #[trigger] members(widget_groups@.take(k as int), def.start as nat, def.group, count as nat) == Seq::<int>::empty() by {
        }
        assert(r@.map_values(|i: usize| i as int) =~= members(widget_groups@.take(i as int), def.start as nat, def.group, count as nat));
    }
    while i < widget_groups.len()
        invariant
            i <= widget_groups@.len(),
            i < widget_groups@.len() ==> def.start <= i,
            count == def.num + 1,
            r@.map_values(|i: usize| i as int) == members(widget_groups@.take(i as int), def.start as nat, def.group, count as nat),
        decreases widget_groups@.len() - i,
    {
        proof {
            assert(widget_groups@.take(i + 1).drop_last() =~= widget_groups@.take(i as int));
        }
        let ghost before = r@;
        if widget_groups[i] == def.group && r.len() < count {
            r.push(i);
            proof {
                assert(r@.map_values(|i: usize| i as int) =~= before.map_values(|i: usize| i as int).push(i as int));
            }
        }
        i = i + 1;
    }
    proof {
        assert(widget_groups@.take(widget_groups@.len() as int) =~= widget_groups@);
    }
    r
}

/// The render groups of a frame under construction, and the group that new widgets join.
pub struct RenderGroups<R> {
    defs: Vec<RendGroupDef<R>>,
    cur: RendGroup,
}

impl<R> RenderGroups<R> {
    /// Each group sits at the position its handle names, and the current group exists.
    pub open spec fn well_formed(&self) -> bool {
        &&& forall|i: int| 0 <= i < self.spec_defs().len() ==> #[trigger] self.spec_defs()[i].group.spec_index() == i
        &&& self.spec_cur().spec_index() < self.spec_defs().len()
        &&& self.spec_defs().len() <= u16::MAX + 1
    }

    pub closed spec fn spec_defs(&self) -> Seq<RendGroupDef<R>> {
        self.defs@
    }

    pub closed spec fn spec_cur(&self) -> RendGroup {
        self.cur
    }

    /// The groups of a new frame: one group for the root, which is current.
    pub fn new(root_rect: R) -> (g: RenderGroups<R>)
        ensures
            g.well_formed(),
            g.spec_defs().len() == 1,
            g.spec_defs()[0].rect == root_rect,
            g.spec_defs()[0].id@ == Seq::<char>::empty(),
            g.spec_defs()[0].group.spec_index() == 0,
            g.spec_defs()[0].start == 0,
            g.spec_defs()[0].num == 0,
            !g.spec_defs()[0].always_top,
            g.spec_cur().spec_index() == 0,
    {
        let cur = RendGroup { index: 0 };
        let mut defs = Vec::new();
        defs.push(RendGroupDef { rect: root_rect, id: String::new(), group: cur, start: 0, num: 0, always_top: false });
        RenderGroups { defs, cur }
    }

    /// The group that new widgets join.
    pub fn cur_render_group(&self) -> (g: RendGroup)
        ensures
            g == self.spec_cur(),
    {
        self.cur
    }

    /// Makes `group` the group that new widgets join again.
    pub fn prev_render_group(&mut self, group: RendGroup)
        requires
            old(self).well_formed(),
            group.spec_index() < old(self).spec_defs().len(),
        ensures
            final(self).well_formed(),
            final(self).spec_defs() == old(self).spec_defs(),
            final(self).spec_cur() == group,
    {
        self.cur = group;
    }

    /// Starts a new group, started by the widget `id` with bounds `rect`, after
    /// `widgets_len` widgets; it becomes the group that new widgets join.
    pub fn next_render_group(&mut self, rect: R, id: String, always_top: bool, widgets_len: usize)
        requires
            old(self).well_formed(),
            old(self).spec_defs().len() <= u16::MAX,
        ensures
            final(self).well_formed(),
            final(self).spec_defs().len() == old(self).spec_defs().len() + 1,
            final(self).spec_defs().drop_last() == old(self).spec_defs(),
            final(self).spec_defs().last().rect == rect,
            final(self).spec_defs().last().id == id,
            final(self).spec_defs().last().start == widgets_len,
            final(self).spec_defs().last().num == 0,
            final(self).spec_defs().last().always_top == always_top,
            final(self).spec_cur().spec_index() == old(self).spec_defs().len(),
    {
        let index = self.defs.len() as u16;
        let group = RendGroup { index };
        self.defs.push(RendGroupDef { rect, id, group, start: widgets_len, num: 0, always_top });
        self.cur = group;
        proof {
            assert(self.defs@.drop_last() =~= old(self).defs@);
        }
    }

    /// Adds a widget to the current group and returns the group it joined.
    pub fn push_widget(&mut self) -> (g: RendGroup)
        requires
            old(self).well_formed(),
            old(self).spec_defs()[old(self).spec_cur().spec_index() as int].num < usize::MAX,
        ensures
            final(self).well_formed(),
            g == old(self).spec_cur(),
            final(self).spec_cur() == old(self).spec_cur(),
            final(self).spec_defs().len() == old(self).spec_defs().len(),
            forall|i: int| 0 <= i < final(self).spec_defs().len() && i != g.spec_index()
                ==> final(self).spec_defs()[i] == old(self).spec_defs()[i],
            final(self).spec_defs()[g.spec_index() as int] == (RendGroupDef {
                num: (old(self).spec_defs()[g.spec_index() as int].num + 1) as usize,
                ..old(self).spec_defs()[g.spec_index() as int]
            }),
    {
        let i = self.cur.index as usize;
        let mut def = self.defs.remove(i);
        def.num = def.num + 1;
        self.defs.insert(i, def);
        self.cur
    }

    /// Sets the bounds of the current group.
    pub fn rebound_cur_render_group(&mut self, bounds: R)
        requires
            old(self).well_formed(),
        ensures
            final(self).well_formed(),
            final(self).spec_cur() == old(self).spec_cur(),
            final(self).spec_defs().len() == old(self).spec_defs().len(),
            forall|i: int| 0 <= i < final(self).spec_defs().len() && i != old(self).spec_cur().spec_index()
                ==> final(self).spec_defs()[i] == old(self).spec_defs()[i],
            final(self).spec_defs()[old(self).spec_cur().spec_index() as int] == (RendGroupDef {
                rect: bounds,
                ..old(self).spec_defs()[old(self).spec_cur().spec_index() as int]
            }),
    {
        let i = self.cur.index as usize;
        let mut def = self.defs.remove(i);
        def.rect = bounds;
        self.defs.insert(i, def);
    }

    /// The groups, in creation order.
    pub fn defs(&self) -> (d: &Vec<RendGroupDef<R>>)
        ensures
            d@ == self.spec_defs(),
    {
        &self.defs
    }

    /// Ends the frame: gives up the groups, in creation order.
    pub fn into_defs(self) -> (d: Vec<RendGroupDef<R>>)
        ensures
            d@ == self.spec_defs(),
    {
        self.defs
    }
}

} // verus!
