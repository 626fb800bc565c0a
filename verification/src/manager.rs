use vstd::prelude::*;

use crate::config::Config;
use crate::geometry::Geometry;
use crate::geometry::GeomModel;
use crate::geometry::lemma_split_partition;
use crate::geometry::lemma_split_wf;
use crate::geometry::split_kept;
use crate::geometry::split_new;
use crate::keys::Direction;
use crate::requests::ConfigureRequest;
use crate::requests::Request;

verus! {

/// What one nudge did: nothing for want of a focused managed window,
/// nothing because the undo history was empty, or one configure request
/// to issue.
#[derive(Clone, Copy, Debug, PartialEq, Eq)]
pub enum NudgeOutcome {
    /// No managed window has the focus; the nudge is a no-op.
    NoFocusedItem,
    /// A reset found an empty revert stack: no further reversions.
    NoReversions,
    /// The focused item moved; issue this request.
    Configured(ConfigureRequest),
}

/// One managed window: its protocol handle, its rectangle, how it was
/// split out of another item, and the undo history of its rectangle.
#[derive(Debug)]
pub struct WindowItem {
    /// Stable identifier, equal to the insertion order of the item and
    /// never reused while the manager lives.
    pub id: usize,
    /// Protocol handle of the underlying window; unique among live items.
    pub window: u32,
    /// Current rectangle of the window.
    pub geom: Geometry,
    /// The item this one was split out of, if any.
    pub split_parent: Option<usize>,
    /// The items split out of this one, in the order they were created.
    pub split_children: Vec<usize>,
    /// Count of splits this item has taken part in: it grows both when
    /// the item is created as a new half and every time another window
    /// is split out of it, so both ends of every split gain a level.
    pub split_depth: usize,
    /// Prior rectangles, most recent last; consumed by the reset nudge.
    pub reverts: Vec<Geometry>,
}

/// Child lists as they appear in the model: each stored id, widened.
pub open spec fn child_ids(v: Seq<usize>) -> Seq<int> {
    v.map_values(|c: usize| c as int)
}

/// Undo histories as they appear in the model: each rectangle's view.
pub open spec fn geom_views(v: Seq<Geometry>) -> Seq<GeomModel> {
    v.map_values(|g: Geometry| g@)
}

/// Mathematical model of one managed window.
#[verifier::ext_equal]
pub ghost struct ItemModel {
    pub id: int,
    pub window: u32,
    pub geom: GeomModel,
    pub split_parent: Option<int>,
    pub split_children: Seq<int>,
    pub split_depth: int,
    pub reverts: Seq<GeomModel>,
}

impl View for WindowItem {
    type V = ItemModel;

    open spec fn view(&self) -> ItemModel {
        ItemModel {
            id: self.id as int,
            window: self.window,
            geom: self.geom@,
            split_parent: match self.split_parent {
                Some(p) => Some(p as int),
                None => None,
            },
            split_children: child_ids(self.split_children@),
            split_depth: self.split_depth as int,
            reverts: geom_views(self.reverts@),
        }
    }
}

impl ItemModel {
    /// Well-formedness of one item, relative to the manager's id counter:
    /// its id was assigned before the counter's current value, its
    /// rectangle and every remembered rectangle lie in bounds, and its
    /// split depth cannot exceed the number of placements ever made.
    pub open spec fn wf(self, next_id: int) -> bool {
        &&& 0 <= self.id < next_id
        &&& self.geom.wf()
        &&& 0 <= self.split_depth <= next_id
        &&& forall|k: int| 0 <= k < self.reverts.len() ==> (#[trigger] self.reverts[k]).wf()
    }
}

/// The whole state the tiling engine decides over: the settings, the
/// at-most-one focused window handle, and the managed set.
pub struct Manager {
    pub config: Config,
    /// Handle the pointer last entered; not necessarily a managed window.
    pub focus: Option<u32>,
    pub items: Vec<WindowItem>,
    /// Next id to assign; grows by one with every placement.
    pub next_id: usize,
}

/// Mathematical model of the whole manager state.
#[verifier::ext_equal]
pub ghost struct ManagerModel {
    pub config: Config,
    pub focus: Option<u32>,
    pub items: Seq<ItemModel>,
    pub next_id: int,
}

impl View for Manager {
    type V = ManagerModel;

    open spec fn view(&self) -> ManagerModel {
        ManagerModel {
            config: self.config,
            focus: self.focus,
            items: self.items@.map_values(|it: WindowItem| it@),
            next_id: self.next_id as int,
        }
    }
}

impl ManagerModel {
    /// Whether some managed item owns the window handle `w`.
    pub open spec fn has_window(self, w: u32) -> bool {
        exists|i: int| 0 <= i < self.items.len() && (#[trigger] self.items[i]).window == w
    }

    /// Position of the managed item owning handle `w`; meaningful only
    /// when `has_window(w)` holds, and unique under `wf`.
    pub open spec fn window_index(self, w: u32) -> int {
        choose|i: int| 0 <= i < self.items.len() && (#[trigger] self.items[i]).window == w
    }

    /// Position of the focused item: the managed item whose window the
    /// focus handle names, if the focus names a managed window at all.
    pub open spec fn focused_index(self) -> Option<int> {
        match self.focus {
            Some(w) => if self.has_window(w) {
                Some(self.window_index(w))
            } else {
                None
            },
            None => None,
        }
    }

    /// Whether a managed item currently has the focus.
    pub open spec fn has_focused_item(self) -> bool {
        self.focused_index() is Some
    }

    /// The parent link of every item, if present, names a live item that
    /// was created earlier and lists this item among its children.
    pub open spec fn parent_link_wf(self, i: int) -> bool {
        match self.items[i].split_parent {
            Some(p) => {
                &&& p < self.items[i].id
                &&& exists|j: int|
                    0 <= j < self.items.len() && (#[trigger] self.items[j]).id == p
                        && self.items[j].split_children.contains(self.items[i].id)
            },
            None => true,
        }
    }

    /// Every child link names a live item created later whose parent link
    /// points back here.
    pub open spec fn child_link_wf(self, i: int, k: int) -> bool {
        let c = self.items[i].split_children[k];
        &&& self.items[i].id < c
        &&& exists|j: int|
            0 <= j < self.items.len() && (#[trigger] self.items[j]).id == c
                && self.items[j].split_parent == Some(self.items[i].id)
    }

    /// Parent and child links agree pairwise and only ever point from a
    /// later item to an earlier one, so the split relation is a forest.
    pub open spec fn links_wf(self) -> bool {
        &&& forall|i: int| 0 <= i < self.items.len() ==> #[trigger] self.parent_link_wf(i)
        &&& forall|i: int, k: int|
            0 <= i < self.items.len() && 0 <= k < self.items[i].split_children.len()
                ==> #[trigger] self.child_link_wf(i, k)
    }

    /// Invariant of the whole manager state: valid settings, well-formed
    /// items, pairwise distinct ids and window handles, and a well-formed
    /// split forest.
    pub open spec fn wf(self) -> bool {
        &&& self.config.wf()
        &&& 0 <= self.next_id
        &&& forall|i: int| 0 <= i < self.items.len() ==> (#[trigger] self.items[i]).wf(self.next_id)
        &&& forall|i: int, j: int|
            #![trigger self.items[i].id, self.items[j].id]
            0 <= i < self.items.len() && 0 <= j < self.items.len() && i != j
                ==> self.items[i].id != self.items[j].id
        &&& forall|i: int, j: int|
            #![trigger self.items[i].window, self.items[j].window]
            0 <= i < self.items.len() && 0 <= j < self.items.len() && i != j
                ==> self.items[i].window != self.items[j].window
        &&& self.links_wf()
    }

    /// Under distinct window handles, the position of a handle is unique,
    /// so `window_index` agrees with any position found by search.
    pub proof fn lemma_window_index_unique(self, i: int)
        requires
            self.wf(),
            0 <= i < self.items.len(),
        ensures
            self.has_window(self.items[i].window),
            self.window_index(self.items[i].window) == i,
    {
        let w = self.items[i].window;
        assert(self.has_window(w));
        let j = self.window_index(w);
        assert(0 <= j < self.items.len() && self.items[j].window == w);
        if i != j {
            assert(self.items[i].window != self.items[j].window);
        }
    }
}

/// The rectangle a first (or otherwise parentless) window receives: the
/// whole screen below the status bar.
pub open spec fn full_screen_geom(c: Config) -> GeomModel {
    GeomModel {
        x: 0,
        y: c.bar_offset as int,
        width: c.screen_width as int,
        height: c.usable_height(),
    }
}

/// The item a placement creates, before any links are recorded on it.
pub open spec fn placed_item(
    m: ManagerModel,
    w: u32,
    geom: GeomModel,
    parent: Option<int>,
    depth: int,
) -> ItemModel {
    ItemModel {
        id: m.next_id,
        window: w,
        geom,
        split_parent: parent,
        split_children: Seq::empty(),
        split_depth: depth,
        reverts: Seq::empty(),
    }
}

/// Placement of a newly mapped window. Without a focused item the window
/// takes the full usable screen; otherwise the focused item's rectangle
/// is split, the focused item keeps one half and shrinks, the new window
/// takes the other, and the two are linked. Both the new item and its
/// parent gain one level of split depth. The configured depth limit is
/// advisory and never refuses a placement.
pub open spec fn place_tr(m: ManagerModel, w: u32) -> ManagerModel {
    match m.focused_index() {
        None => ManagerModel {
            items: m.items.push(placed_item(m, w, full_screen_geom(m.config), None, 0)),
            next_id: m.next_id + 1,
            ..m
        },
        Some(pi) => {
            let parent = m.items[pi];
            let parent2 = ItemModel {
                geom: split_kept(parent.geom),
                split_children: parent.split_children.push(m.next_id),
                split_depth: parent.split_depth + 1,
                ..parent
            };
            let child = placed_item(m, w, split_new(parent.geom), Some(parent.id), parent.split_depth + 1);
            ManagerModel {
                items: m.items.update(pi, parent2).push(child),
                next_id: m.next_id + 1,
                ..m
            }
        },
    }
}

/// Split partition at the placement level: when a placement splits the
/// focused item, the item keeps one half and the new window takes the
/// other; the two rectangles never overlap and together cover exactly
/// the focused item's pre-split rectangle.
pub proof fn lemma_place_split_partition(m: ManagerModel, w: u32, pi: int)
    requires
        m.wf(),
        m.focused_index() == Some(pi),
    ensures
        ({
            let m2 = place_tr(m, w);
            let parent_geom = m.items[pi].geom;
            &&& m2.items[pi].geom == split_kept(parent_geom)
            &&& m2.items[m.items.len() as int].geom == split_new(parent_geom)
            &&& split_kept(parent_geom).points().disjoint(split_new(parent_geom).points())
            &&& split_kept(parent_geom).points().union(split_new(parent_geom).points())
                =~= parent_geom.points()
        }),
{
    assert(0 <= pi < m.items.len());
    assert(m.items[pi].wf(m.next_id));
    lemma_split_partition(m.items[pi].geom);
}

/// Size left to the window proper once its border and a two-pixel gap
/// are taken off one dimension; zero when the dimension is too small for
/// either.
pub open spec fn inner_len(len: int, border: int) -> int {
    if len >= border + 2 {
        len - border - 2
    } else {
        0
    }
}

/// The requests that redraw one managed item: configure its rectangle
/// less border and gap, paint the unfocused border and subscribe it to
/// the standard events, grab the kill key on it, and map it.
pub open spec fn item_redraw(c: Config, it: ItemModel) -> Seq<Request> {
    seq![
        Request::Configure(ConfigureRequest {
            window: it.window,
            x: Some(it.geom.x as i32),
            y: Some(it.geom.y as i32),
            width: Some(inner_len(it.geom.width, c.border_width as int) as u32),
            height: Some(inner_len(it.geom.height, c.border_width as int) as u32),
            border_width: Some(c.border_width),
        }),
        Request::ChangeAttributes {
            window: it.window,
            border_color: c.defocus_color,
            set_event_mask: true,
        },
        Request::GrabKillKey { window: it.window },
        Request::MapWin { window: it.window },
    ]
}

/// The redraw requests for the first `n` managed items, in order.
pub open spec fn redraw_upto(m: ManagerModel, n: int) -> Seq<Request>
    decreases n,
{
    if n <= 0 {
        Seq::empty()
    } else {
        redraw_upto(m, n - 1) + item_redraw(m.config, m.items[n - 1])
    }
}

/// The full redraw pass over the managed set. It is a function of the
/// managed items and the settings alone.
pub open spec fn redraw_spec(m: ManagerModel) -> Seq<Request> {
    redraw_upto(m, m.items.len() as int)
}

/// Redraw idempotence: the redraw pass depends on nothing but the
/// managed set and the settings, so issuing it twice on an unchanged
/// state produces identical requests both times.
pub proof fn lemma_redraw_deterministic(m: ManagerModel, r1: Seq<Request>, r2: Seq<Request>)
    requires
        r1 == redraw_spec(m),
        r2 == redraw_spec(m),
    ensures
        r1 == r2,
{
}

/// Where a directional nudge moves a rectangle: one edge is pushed to
/// the matching screen edge while everything else stays. Up and left
/// reposition the near edge and extend over the whole usable span; down
/// and right keep the near edge and extend the size to the far screen
/// edge (empty when the near edge already lies past it). `Reset` moves
/// nothing by itself.
pub open spec fn nudge_geom(c: Config, g: GeomModel, dir: Direction) -> GeomModel {
    match dir {
        Direction::Up => GeomModel { y: c.bar_offset as int, height: c.usable_height(), ..g },
        Direction::Left => GeomModel { x: 0, width: c.screen_width as int, ..g },
        Direction::Down => GeomModel {
            height: if g.y >= c.screen_height { 0 } else { c.screen_height - g.y },
            ..g
        },
        Direction::Right => GeomModel {
            width: if g.x >= c.screen_width { 0 } else { c.screen_width - g.x },
            ..g
        },
        Direction::Reset => g,
    }
}

/// The one configure request a directional nudge issues: only the two
/// changed fields of the moved axis, from the rectangle the nudge
/// produced.
pub open spec fn nudge_request(c: Config, it: ItemModel, dir: Direction) -> ConfigureRequest {
    let ng = nudge_geom(c, it.geom, dir);
    if dir == Direction::Up || dir == Direction::Down {
        ConfigureRequest {
            window: it.window,
            x: None,
            y: Some(ng.y as i32),
            width: None,
            height: Some(ng.height as u32),
            border_width: None,
        }
    } else {
        ConfigureRequest {
            window: it.window,
            x: Some(ng.x as i32),
            y: None,
            width: Some(ng.width as u32),
            height: None,
            border_width: None,
        }
    }
}

/// State change of one nudge. Without a focused managed window nothing
/// changes. A directional nudge first remembers the live protocol-
/// reported rectangle on the revert stack, then moves the item's
/// rectangle. A reset pops the most recent remembered rectangle and
/// restores it exactly; with an empty stack nothing changes.
pub open spec fn nudge_tr(m: ManagerModel, dir: Direction, live: GeomModel) -> ManagerModel {
    match m.focused_index() {
        None => m,
        Some(i) => {
            let it = m.items[i];
            if dir == Direction::Reset {
                if it.reverts.len() == 0 {
                    m
                } else {
                    let restored = ItemModel {
                        geom: it.reverts.last(),
                        reverts: it.reverts.drop_last(),
                        ..it
                    };
                    ManagerModel { items: m.items.update(i, restored), ..m }
                }
            } else {
                let moved = ItemModel {
                    geom: nudge_geom(m.config, it.geom, dir),
                    reverts: it.reverts.push(live),
                    ..it
                };
                ManagerModel { items: m.items.update(i, moved), ..m }
            }
        },
    }
}

/// What one nudge reports: no focused item, no further reversions, or
/// the single configure request to issue (two fields for a directional
/// nudge, all four for a restored rectangle).
pub open spec fn nudge_outcome_spec(m: ManagerModel, dir: Direction, live: GeomModel) -> NudgeOutcome {
    match m.focused_index() {
        None => NudgeOutcome::NoFocusedItem,
        Some(i) => {
            let it = m.items[i];
            if dir == Direction::Reset {
                if it.reverts.len() == 0 {
                    NudgeOutcome::NoReversions
                } else {
                    let r = it.reverts.last();
                    NudgeOutcome::Configured(ConfigureRequest {
                        window: it.window,
                        x: Some(r.x as i32),
                        y: Some(r.y as i32),
                        width: Some(r.width as u32),
                        height: Some(r.height as u32),
                        border_width: None,
                    })
                }
            } else {
                NudgeOutcome::Configured(nudge_request(m.config, it, dir))
            }
        },
    }
}

/// A nudge preserves the manager invariant: the moved or restored
/// rectangle stays within bounds, and neither links nor identities
/// change.
pub proof fn lemma_nudge_tr_wf(m: ManagerModel, dir: Direction, live: GeomModel)
    requires
        m.wf(),
        live.wf(),
    ensures
        nudge_tr(m, dir, live).wf(),
{
    let m2 = nudge_tr(m, dir, live);
    let n = m.items.len() as int;
    match m.focused_index() {
        None => {},
        Some(i) => {
            assert(0 <= i < n);
            let it = m.items[i];
            assert(it.wf(m.next_id));
            assert(m2.items.len() == n);
            assert(forall|k: int| 0 <= k < n && k != i ==> m2.items[k] == m.items[k]);
            assert(m2.items[i].id == it.id);
            assert(m2.items[i].window == it.window);
            assert(m2.items[i].split_parent == it.split_parent);
            assert(m2.items[i].split_children == it.split_children);
            assert(m2.items[i].wf(m2.next_id)) by {
                if dir == Direction::Reset {
                    if it.reverts.len() > 0 {
                        assert(it.reverts[it.reverts.len() - 1].wf());
                        assert(forall|k: int|
                            0 <= k < it.reverts.len() - 1
                                ==> (#[trigger] it.reverts.drop_last()[k]) == it.reverts[k]);
                    }
                } else {
                    assert(nudge_geom(m.config, it.geom, dir).wf());
                    assert(forall|k: int|
                        0 <= k < it.reverts.len()
                            ==> (#[trigger] it.reverts.push(live)[k]) == it.reverts[k]);
                    assert(it.reverts.push(live)[it.reverts.len() as int] == live);
                }
            }
            assert(forall|k: int|
                0 <= k < n ==> (#[trigger] m2.items[k]).id == m.items[k].id
                    && m2.items[k].window == m.items[k].window
                    && m2.items[k].split_parent == m.items[k].split_parent
                    && m2.items[k].split_children == m.items[k].split_children);
            lemma_links_wf_preserved(m, m2);
        },
    }
}

/// Nudge/reset round trip: a directional nudge followed immediately by
/// a reset restores the focused item's rectangle to exactly the live
/// rectangle the nudge saw (all four of x, y, width and height), and
/// leaves its revert stack as it was before the nudge. The whole state
/// differs from the pre-nudge state only in that rectangle; whatever
/// live rectangle the reset itself was handed plays no part.
pub proof fn lemma_nudge_reset_round_trip(
    m: ManagerModel,
    i: int,
    dir: Direction,
    live: GeomModel,
    live2: GeomModel,
)
    requires
        m.wf(),
        m.focused_index() == Some(i),
        dir != Direction::Reset,
    ensures
        ({
            let m1 = nudge_tr(m, dir, live);
            let m2 = nudge_tr(m1, Direction::Reset, live2);
            &&& 0 <= i < m2.items.len()
            &&& m2.items[i].geom == live
            &&& m2.items[i].reverts == m.items[i].reverts
            &&& m2 == ManagerModel { items: m.items.update(i, ItemModel { geom: live, ..m.items[i] }), ..m }
        }),
{
    let m1 = nudge_tr(m, dir, live);
    let m2 = nudge_tr(m1, Direction::Reset, live2);
    let it = m.items[i];
    let moved = ItemModel {
        geom: nudge_geom(m.config, it.geom, dir),
        reverts: it.reverts.push(live),
        ..it
    };
    assert(m1.items == m.items.update(i, moved));
    // The same item is still the focused one after the nudge.
    let fw = m.focus.unwrap();
    assert(m.items[i].window == fw);
    assert(m1.items[i].window == fw);
    assert(m1.has_window(fw));
    let j = m1.window_index(fw);
    assert(0 <= j < m1.items.len() && m1.items[j].window == fw);
    assert forall|k: int| 0 <= k < m1.items.len() && k != i implies m1.items[k].window != fw by {
        assert(m1.items[k].window == m.items[k].window);
    }
    assert(j == i);
    assert(m1.focused_index() == Some(i));
    // The reset pops exactly the live rectangle the nudge pushed.
    assert(moved.reverts.len() == it.reverts.len() + 1);
    assert(moved.reverts.last() == live);
    assert(moved.reverts.drop_last() =~= it.reverts);
    let restored = ItemModel { geom: live, reverts: it.reverts, ..moved };
    assert(m2.items =~~= m.items.update(i, ItemModel { geom: live, ..it }));
    assert(m2 =~~= ManagerModel { items: m.items.update(i, ItemModel { geom: live, ..it }), ..m });
}

/// Empty-revert no-op: a reset on a focused item whose revert stack is
/// empty reports that no further reversions exist and leaves the whole
/// state, its rectangle included, unchanged.
pub proof fn lemma_empty_revert_no_op(m: ManagerModel, i: int, live: GeomModel)
    requires
        m.wf(),
        m.focused_index() == Some(i),
        m.items[i].reverts.len() == 0,
    ensures
        nudge_tr(m, Direction::Reset, live) == m,
        nudge_outcome_spec(m, Direction::Reset, live) == NudgeOutcome::NoReversions,
{
}

/// The sequence `s` with every occurrence of `rid` taken out, order
/// otherwise kept.
pub open spec fn without_id(s: Seq<int>, rid: int) -> Seq<int>
    decreases s.len(),
{
    if s.len() == 0 {
        Seq::empty()
    } else {
        without_id(s.drop_last(), rid) + if s.last() == rid {
            Seq::empty()
        } else {
            seq![s.last()]
        }
    }
}

/// Taking an id out removes exactly its occurrences: everything else is
/// kept and nothing new appears.
pub proof fn lemma_without_id_contains(s: Seq<int>, rid: int, c: int)
    ensures
        without_id(s, rid).contains(c) <==> (s.contains(c) && c != rid),
    decreases s.len(),
{
    if s.len() == 0 {
        assert(!s.contains(c));
        assert(without_id(s, rid) =~= Seq::<int>::empty());
        assert(!without_id(s, rid).contains(c));
    } else {
        lemma_without_id_contains(s.drop_last(), rid, c);
        let prev = without_id(s.drop_last(), rid);
        let whole = without_id(s, rid);
        // membership in a sequence either lies in the prefix or is the
        // last element, in both directions
        if s.contains(c) {
            let j = choose|j: int| 0 <= j < s.len() && s[j] == c;
            if j < s.len() - 1 {
                assert(s.drop_last()[j] == c);
                assert(s.drop_last().contains(c));
            }
        }
        if s.drop_last().contains(c) {
            let j = choose|j: int| 0 <= j < s.drop_last().len() && s.drop_last()[j] == c;
            assert(s[j] == c);
            assert(s.contains(c));
        }
        if s.last() == rid {
            assert(whole =~= prev);
        } else {
            assert(whole == prev + seq![s.last()]);
            if prev.contains(c) {
                let j = choose|j: int| 0 <= j < prev.len() && prev[j] == c;
                assert(whole[j] == c);
                assert(whole.contains(c));
            }
            if s.last() == c {
                assert(whole[whole.len() - 1] == c);
                assert(whole.contains(c));
            }
            if whole.contains(c) {
                let j = choose|j: int| 0 <= j < whole.len() && whole[j] == c;
                if j < prev.len() {
                    assert(prev[j] == c);
                    assert(prev.contains(c));
                } else {
                    assert(c == s.last());
                    assert(s.contains(c));
                }
            }
        }
    }
}

/// One item as it stands after another item, of id `rid`, was destroyed:
/// a parent link to the destroyed item is cleared and the destroyed id
/// disappears from the child list; rectangle, depth and undo history are
/// left exactly as they were (no re-layout).
pub open spec fn scrub_links(it: ItemModel, rid: int) -> ItemModel {
    ItemModel {
        split_parent: if it.split_parent == Some(rid) {
            None
        } else {
            it.split_parent
        },
        split_children: without_id(it.split_children, rid),
        ..it
    }
}

/// The managed items after the item at position `i`, of id `rid`, is
/// removed: the rest close ranks and every link to the removed item is
/// cleared on both sides.
pub open spec fn removed_items(items: Seq<ItemModel>, i: int, rid: int) -> Seq<ItemModel> {
    Seq::new(
        (items.len() - 1) as nat,
        |k: int| scrub_links(
            items[if k < i {
                k
            } else {
                k + 1
            }],
            rid,
        ),
    )
}

/// Removal of a managed window from the tiling state, shared by the
/// destroy action and an external unmap notification. An unmanaged
/// handle changes nothing. The focus handle is left alone: a stale
/// focus is harmless, since every action checks that the focused handle
/// is still managed.
pub open spec fn remove_window_tr(m: ManagerModel, w: u32) -> ManagerModel {
    if !m.has_window(w) {
        m
    } else {
        let i = m.window_index(w);
        let rid = m.items[i].id;
        ManagerModel { items: removed_items(m.items, i, rid), ..m }
    }
}

/// State change of the destroy action: the focused item, if any is
/// managed, leaves the managed set.
pub open spec fn destroy_tr(m: ManagerModel) -> ManagerModel {
    if m.has_focused_item() {
        remove_window_tr(m, m.focus.unwrap())
    } else {
        m
    }
}

/// Removal preserves the manager invariant: the survivors keep their
/// identities and well-formed rectangles, and every link either pointed
/// away from the removed item — in which case both of its ends survive —
/// or is cleared.
pub proof fn lemma_remove_window_tr_wf(m: ManagerModel, w: u32)
    requires
        m.wf(),
    ensures
        remove_window_tr(m, w).wf(),
{
    if m.has_window(w) {
        let n = m.items.len() as int;
        let i = m.window_index(w);
        assert(0 <= i < n);
        let rid = m.items[i].id;
        let m2 = remove_window_tr(m, w);
        let n2 = n - 1;
        assert(m2.items.len() == n2);
        assert(forall|k: int|
            0 <= k < n2 ==> #[trigger] m2.items[k] == scrub_links(
                m.items[if k < i {
                    k
                } else {
                    k + 1
                }],
                rid,
            ));
        // every survivor keeps id, window, rectangle, depth and history
        assert forall|k: int| 0 <= k < n2 implies (#[trigger] m2.items[k]).wf(m2.next_id) by {
            let ok = if k < i {
                k
            } else {
                k + 1
            };
            assert(m.items[ok].wf(m.next_id));
        }
        assert forall|k1: int, k2: int|
            #![trigger m2.items[k1].id, m2.items[k2].id]
            0 <= k1 < n2 && 0 <= k2 < n2 && k1 != k2 implies m2.items[k1].id != m2.items[k2].id by {
            let o1 = if k1 < i {
                k1
            } else {
                k1 + 1
            };
            let o2 = if k2 < i {
                k2
            } else {
                k2 + 1
            };
            assert(m.items[o1].id != m.items[o2].id);
        }
        assert forall|k1: int, k2: int|
            #![trigger m2.items[k1].window, m2.items[k2].window]
            0 <= k1 < n2 && 0 <= k2 < n2 && k1 != k2
            implies m2.items[k1].window != m2.items[k2].window by {
            let o1 = if k1 < i {
                k1
            } else {
                k1 + 1
            };
            let o2 = if k2 < i {
                k2
            } else {
                k2 + 1
            };
            assert(m.items[o1].window != m.items[o2].window);
        }
        assert forall|k: int| 0 <= k < n2 implies #[trigger] m2.parent_link_wf(k) by {
            let ok = if k < i {
                k
            } else {
                k + 1
            };
            assert(m.parent_link_wf(ok));
            match m2.items[k].split_parent {
                Some(p) => {
                    // the link survived the scrub, so it did not point at
                    // the removed item
                    assert(p != rid);
                    assert(m.items[ok].split_parent == Some(p));
                    let j = choose|j: int|
                        0 <= j < n && (#[trigger] m.items[j]).id == p
                            && m.items[j].split_children.contains(m.items[ok].id);
                    assert(j != i) by {
                        if j == i {
                            assert(m.items[i].id == rid);
                        }
                    }
                    let j2 = if j < i {
                        j
                    } else {
                        j - 1
                    };
                    assert(m2.items[j2] == scrub_links(m.items[j], rid));
                    assert(m2.items[j2].id == p);
                    lemma_without_id_contains(m.items[j].split_children, rid, m.items[ok].id);
                    assert(m.items[ok].id != rid) by {
                        assert(m.items[ok].id != m.items[i].id);
                    }
                    assert(m2.items[j2].split_children.contains(m2.items[k].id));
                },
                None => {},
            }
        }
        assert forall|k: int, kk: int|
            0 <= k < n2 && 0 <= kk < m2.items[k].split_children.len()
            implies #[trigger] m2.child_link_wf(k, kk) by {
            let ok = if k < i {
                k
            } else {
                k + 1
            };
            let c = m2.items[k].split_children[kk];
            assert(m2.items[k].split_children.contains(c));
            lemma_without_id_contains(m.items[ok].split_children, rid, c);
            assert(m.items[ok].split_children.contains(c) && c != rid);
            let kk0 = choose|kk0: int|
                0 <= kk0 < m.items[ok].split_children.len() && m.items[ok].split_children[kk0] == c;
            assert(m.child_link_wf(ok, kk0));
            let j = choose|j: int|
                0 <= j < n && (#[trigger] m.items[j]).id == c && m.items[j].split_parent == Some(
                    m.items[ok].id,
                );
            assert(j != i) by {
                if j == i {
                    assert(m.items[i].id == rid);
                }
            }
            let j2 = if j < i {
                j
            } else {
                j - 1
            };
            assert(m2.items[j2] == scrub_links(m.items[j], rid));
            assert(m2.items[j2].id == c);
            assert(m.items[ok].id != rid) by {
                assert(m.items[ok].id != m.items[i].id);
            }
            assert(m2.items[j2].split_parent == Some(m2.items[k].id));
        }
    }
}

/// Destroy shrinks the managed set by exactly one: afterwards the
/// destroyed handle is no longer managed, and no surviving item's parent
/// link or child list mentions the destroyed item, so no later lookup
/// can reach it.
pub proof fn lemma_remove_window(m: ManagerModel, w: u32)
    requires
        m.wf(),
        m.has_window(w),
    ensures
        ({
            let m2 = remove_window_tr(m, w);
            let rid = m.items[m.window_index(w)].id;
            &&& m2.items.len() == m.items.len() - 1
            &&& !m2.has_window(w)
            &&& forall|j: int|
                0 <= j < m2.items.len() ==> (#[trigger] m2.items[j]).split_parent != Some(rid)
                    && !m2.items[j].split_children.contains(rid)
        }),
{
    let n = m.items.len() as int;
    let i = m.window_index(w);
    let rid = m.items[i].id;
    let m2 = remove_window_tr(m, w);
    assert forall|j: int| 0 <= j < m2.items.len() implies !((#[trigger] m2.items[j]).window == w) by {
        let oj = if j < i {
            j
        } else {
            j + 1
        };
        assert(m2.items[j].window == m.items[oj].window);
        assert(m.items[oj].window != m.items[i].window);
    }
    assert(!m2.has_window(w));
    assert forall|j: int|
        0 <= j < m2.items.len() implies (#[trigger] m2.items[j]).split_parent != Some(rid)
            && !m2.items[j].split_children.contains(rid) by {
        let oj = if j < i {
            j
        } else {
            j + 1
        };
        assert(m2.items[j] == scrub_links(m.items[oj], rid));
        lemma_without_id_contains(m.items[oj].split_children, rid, rid);
    }
}

/// State change when the pointer enters a window: that window's handle
/// takes the focus, whether or not the window is managed.
pub open spec fn enter_tr(m: ManagerModel, w: u32) -> ManagerModel {
    ManagerModel { focus: Some(w), ..m }
}

/// Requests an enter issues: paint the focused border, hand the window
/// protocol input focus, and raise it above its siblings.
pub open spec fn enter_requests(m: ManagerModel, w: u32) -> Seq<Request> {
    seq![
        Request::ChangeAttributes {
            window: w,
            border_color: m.config.focus_color,
            set_event_mask: false,
        },
        Request::SetFocus { window: w },
        Request::Raise { window: w },
    ]
}

/// State change when the pointer leaves a window: the focus is cleared
/// unconditionally.
pub open spec fn leave_tr(m: ManagerModel) -> ManagerModel {
    ManagerModel { focus: None, ..m }
}

/// Requests a leave issues: the unfocused border color, but only while
/// the window is still managed — it may already have been destroyed by
/// the time the notification arrives, and that is not an error.
pub open spec fn leave_requests(m: ManagerModel, w: u32) -> Seq<Request> {
    if m.has_window(w) {
        seq![
            Request::ChangeAttributes {
                window: w,
                border_color: m.config.defocus_color,
                set_event_mask: false,
            },
        ]
    } else {
        Seq::empty()
    }
}

/// Take every occurrence of `rid` out of a child list, keeping order.
fn remove_matching(v: &mut Vec<usize>, rid: usize)
    ensures
        child_ids(final(v)@) == without_id(child_ids(old(v)@), rid as int),
{
    let mut out: Vec<usize> = Vec::new();
    let mut j: usize = 0;
    while j < v.len()
        invariant
            j <= v.len(),
            v@ == old(v)@,
            child_ids(out@) == without_id(child_ids(v@.take(j as int)), rid as int),
        decreases v.len() - j,
    {
        let ghost out0 = out@;
        let x = v[j];
        if x != rid {
            out.push(x);
        }
        proof {
            let p1 = child_ids(v@.take(j as int));
            let p2 = child_ids(v@.take(j as int + 1));
            assert(p2.len() == j + 1);
            assert(p2.drop_last() =~= p1);
            assert(p2.last() == x as int);
            if x != rid {
                assert(child_ids(out@) =~= child_ids(out0).push(x as int));
                assert(child_ids(out0).push(x as int) =~= without_id(p1, rid as int)
                    + seq![x as int]);
                assert(child_ids(out@) == without_id(p2, rid as int));
            } else {
                assert(child_ids(out@) =~= child_ids(out0));
                assert(without_id(p2, rid as int) =~= without_id(p1, rid as int));
            }
        }
        j = j + 1;
    }
    proof {
        assert(v@.take(v@.len() as int) =~= v@);
    }
    *v = out;
}

/// The manager invariant does not depend on the focus handle: a state
/// that keeps the settings, the items and the id counter stays well
/// formed whatever the focus became.
pub proof fn lemma_wf_focus_independent(m1: ManagerModel, m2: ManagerModel)
    requires
        m1.wf(),
        m2.config == m1.config,
        m2.items == m1.items,
        m2.next_id == m1.next_id,
    ensures
        m2.wf(),
{
    let n = m1.items.len() as int;
    assert forall|i: int| 0 <= i < n implies (#[trigger] m2.items[i]).wf(m2.next_id) by {
        assert(m1.items[i].wf(m1.next_id));
    }
    assert forall|i: int, j: int|
        #![trigger m2.items[i].id, m2.items[j].id]
        0 <= i < n && 0 <= j < n && i != j implies m2.items[i].id != m2.items[j].id by {
        assert(m1.items[i].id != m1.items[j].id);
    }
    assert forall|i: int, j: int|
        #![trigger m2.items[i].window, m2.items[j].window]
        0 <= i < n && 0 <= j < n && i != j implies m2.items[i].window != m2.items[j].window by {
        assert(m1.items[i].window != m1.items[j].window);
    }
    assert(forall|k: int|
        0 <= k < n ==> {
            &&& (#[trigger] m2.items[k]).id == m1.items[k].id
            &&& m2.items[k].split_parent == m1.items[k].split_parent
            &&& m2.items[k].split_children == m1.items[k].split_children
        });
    lemma_links_wf_preserved(m1, m2);
}

/// Link well-formedness depends only on each item's id, parent link and
/// child list, so it carries over to any state that keeps those fields.
pub proof fn lemma_links_wf_preserved(m1: ManagerModel, m2: ManagerModel)
    requires
        m1.links_wf(),
        m2.items.len() == m1.items.len(),
        forall|k: int|
            0 <= k < m1.items.len() ==> {
                &&& (#[trigger] m2.items[k]).id == m1.items[k].id
                &&& m2.items[k].split_parent == m1.items[k].split_parent
                &&& m2.items[k].split_children == m1.items[k].split_children
            },
    ensures
        m2.links_wf(),
{
    let n = m1.items.len() as int;
    assert forall|i: int| 0 <= i < n implies #[trigger] m2.parent_link_wf(i) by {
        assert(m1.parent_link_wf(i));
        match m2.items[i].split_parent {
            Some(p) => {
                let j = choose|j: int|
                    0 <= j < n && (#[trigger] m1.items[j]).id == p
                        && m1.items[j].split_children.contains(m1.items[i].id);
                assert(m2.items[j].id == p);
                assert(m2.items[j].split_children.contains(m2.items[i].id));
            },
            None => {},
        }
    }
    assert forall|i: int, k: int|
        0 <= i < n && 0 <= k < m2.items[i].split_children.len() implies #[trigger] m2.child_link_wf(
        i,
        k,
    ) by {
        assert(m1.child_link_wf(i, k));
        let c = m1.items[i].split_children[k];
        let j = choose|j: int|
            0 <= j < n && (#[trigger] m1.items[j]).id == c && m1.items[j].split_parent == Some(
                m1.items[i].id,
            );
        assert(m2.items[j].id == c);
        assert(m2.items[j].split_parent == Some(m2.items[i].id));
    }
}

/// Placement preserves the manager invariant: the new item's id is fresh,
/// its window was not yet managed, both halves of a split stay in bounds,
/// and the one new link is recorded on both ends.
pub proof fn lemma_place_tr_wf(m: ManagerModel, w: u32)
    requires
        m.wf(),
        !m.has_window(w),
    ensures
        place_tr(m, w).wf(),
{
    let m2 = place_tr(m, w);
    let n = m.items.len() as int;
    match m.focused_index() {
        None => {
            assert(forall|k: int| 0 <= k < n ==> m2.items[k] == m.items[k]);
            assert(forall|k: int|
                0 <= k < n ==> (#[trigger] m2.items[k]).wf(m2.next_id)) by {
                assert(forall|k: int| 0 <= k < n ==> (#[trigger] m.items[k]).wf(m.next_id));
            }
            assert(m2.items[n].wf(m2.next_id));
            assert forall|i: int| 0 <= i < n + 1 implies #[trigger] m2.parent_link_wf(i) by {
                if i < n {
                    assert(m.parent_link_wf(i));
                    match m.items[i].split_parent {
                        Some(p) => {
                            let j = choose|j: int|
                                0 <= j < n && (#[trigger] m.items[j]).id == p
                                    && m.items[j].split_children.contains(m.items[i].id);
                            assert(m2.items[j].id == p);
                            assert(m2.items[j].split_children.contains(m2.items[i].id));
                        },
                        None => {},
                    }
                }
            }
            assert forall|i: int, k: int|
                0 <= i < n + 1 && 0 <= k < m2.items[i].split_children.len()
                    implies #[trigger] m2.child_link_wf(i, k) by {
                assert(i < n);
                assert(m.child_link_wf(i, k));
                let c = m.items[i].split_children[k];
                let j = choose|j: int|
                    0 <= j < n && (#[trigger] m.items[j]).id == c && m.items[j].split_parent
                        == Some(m.items[i].id);
                assert(m2.items[j].id == c);
                assert(m2.items[j].split_parent == Some(m2.items[i].id));
            }
        },
        Some(pi) => {
            let parent = m.items[pi];
            let parent2 = ItemModel {
                geom: split_kept(parent.geom),
                split_children: parent.split_children.push(m.next_id),
                split_depth: parent.split_depth + 1,
                ..parent
            };
            let child = placed_item(m, w, split_new(parent.geom), Some(parent.id), parent.split_depth + 1);
            assert(0 <= pi < n);
            assert(m2.items.len() == n + 1);
            assert(m2.items[pi] == parent2);
            assert(m2.items[n] == child);
            assert(forall|k: int| 0 <= k < n && k != pi ==> m2.items[k] == m.items[k]);
            lemma_split_wf(parent.geom);
            assert forall|k: int| 0 <= k < n + 1 implies (#[trigger] m2.items[k]).wf(m2.next_id) by {
                if k != pi && k != n {
                    assert(m.items[k].wf(m.next_id));
                } else if k == pi {
                    assert(m.items[pi].wf(m.next_id));
                }
            }
            // Old links survive: ids, parent links and child entries are
            // unchanged, and the parent's grown child list still holds
            // every old entry.
            assert forall|i: int| 0 <= i < n + 1 implies #[trigger] m2.parent_link_wf(i) by {
                if i == n {
                    // The new child points at the focused item.
                    assert(m2.items[n].split_parent == Some(parent.id));
                    assert(parent.id < m2.items[n].id) by {
                        assert(m.items[pi].wf(m.next_id));
                    }
                    assert(m2.items[pi].id == parent.id);
                    assert(parent2.split_children[parent.split_children.len() as int]
                        == m.next_id);
                    assert(m2.items[pi].split_children.contains(m2.items[n].id));
                } else {
                    assert(m.parent_link_wf(i));
                    match m.items[i].split_parent {
                        Some(p) => {
                            let j = choose|j: int|
                                0 <= j < n && (#[trigger] m.items[j]).id == p
                                    && m.items[j].split_children.contains(m.items[i].id);
                            assert(m2.items[j].id == p);
                            assert(m2.items[i].id == m.items[i].id);
                            if j == pi {
                                let ci = choose|ci: int|
                                    0 <= ci < parent.split_children.len()
                                        && parent.split_children[ci] == m.items[i].id;
                                assert(parent2.split_children[ci] == m.items[i].id);
                                assert(m2.items[j].split_children.contains(m2.items[i].id));
                            } else {
                                assert(m2.items[j].split_children.contains(m2.items[i].id));
                            }
                        },
                        None => {},
                    }
                }
            }
            assert forall|i: int, k: int|
                0 <= i < n + 1 && 0 <= k < m2.items[i].split_children.len()
                    implies #[trigger] m2.child_link_wf(i, k) by {
                if i == pi && k == parent.split_children.len() {
                    // The one new child entry points at the new item.
                    assert(m2.items[i].split_children[k] == m.next_id);
                    assert(m2.items[i].id < m.next_id) by {
                        assert(m.items[pi].wf(m.next_id));
                    }
                    assert(m2.items[n].id == m.next_id);
                    assert(m2.items[n].split_parent == Some(m2.items[i].id));
                } else {
                    assert(i < n);
                    assert(0 <= k < m.items[i].split_children.len());
                    assert(m2.items[i].split_children[k] == m.items[i].split_children[k]);
                    assert(m.child_link_wf(i, k));
                    let c = m.items[i].split_children[k];
                    let j = choose|j: int|
                        0 <= j < n && (#[trigger] m.items[j]).id == c && m.items[j].split_parent
                            == Some(m.items[i].id);
                    assert(m2.items[j].id == c);
                    assert(m2.items[j].split_parent == Some(m2.items[i].id));
                }
            }
        },
    }
}

impl Manager {
    /// A fresh manager: given settings, no focus, no managed windows.
    pub fn new(config: Config) -> (m: Manager)
        requires
            config.wf(),
        ensures
            m@.config == config,
            m@.focus is None,
            m@.items.len() == 0,
            m@.next_id == 0,
            m@.wf(),
    {
        Manager { config, focus: None, items: Vec::new(), next_id: 0 }
    }

    /// The handle the focus currently names, if any.
    pub fn focused_window(&self) -> (r: Option<u32>)
        ensures
            r == self@.focus,
    {
        self.focus
    }

    /// How many windows are managed.
    pub fn window_count(&self) -> (r: usize)
        ensures
            r == self@.items.len(),
    {
        self.items.len()
    }

    /// How many placements were ever made: the id the next placed
    /// window would receive.
    pub fn placement_count(&self) -> (r: usize)
        ensures
            r == self@.next_id,
    {
        self.next_id
    }

    /// Whether the window handle `w` is managed.
    pub fn manages(&self, w: u32) -> (r: bool)
        requires
            self@.wf(),
        ensures
            r == self@.has_window(w),
    {
        self.find_window(w).is_some()
    }

    /// The current rectangle of the managed window `w`, if it is managed.
    pub fn geometry_of(&self, w: u32) -> (r: Option<Geometry>)
        requires
            self@.wf(),
        ensures
            match r {
                Some(g) => self@.has_window(w) && g@ == self@.items[self@.window_index(w)].geom,
                None => !self@.has_window(w),
            },
    {
        match self.find_window(w) {
            Some(i) => Some(self.items[i].geom),
            None => None,
        }
    }

    /// The full redraw pass: for every managed item, in order, configure
    /// its rectangle (less border and gap), paint the unfocused border
    /// and set the standard event mask, grab the kill key on it, and map
    /// it. A pure function of the state: issuing it twice on an
    /// unchanged manager produces identical requests.
    pub fn redraw_requests(&self) -> (requests: Vec<Request>)
        ensures
            requests@ == redraw_spec(self@),
    {
        let border = self.config.border_width as u32;
        let mut requests: Vec<Request> = Vec::new();
        let mut i: usize = 0;
        while i < self.items.len()
            invariant
                border == self.config.border_width as u32,
                i <= self.items.len(),
                requests@ == redraw_upto(self@, i as int),
            decreases self.items.len() - i,
        {
            let g = self.items[i].geom;
            let w = self.items[i].window;
            let inner_w = if g.width >= border + 2 {
                g.width - border - 2
            } else {
                0
            };
            let inner_h = if g.height >= border + 2 {
                g.height - border - 2
            } else {
                0
            };
            requests.push(Request::Configure(ConfigureRequest {
                window: w,
                x: Some(g.x),
                y: Some(g.y),
                width: Some(inner_w),
                height: Some(inner_h),
                border_width: Some(self.config.border_width),
            }));
            requests.push(Request::ChangeAttributes {
                window: w,
                border_color: self.config.defocus_color,
                set_event_mask: true,
            });
            requests.push(Request::GrabKillKey { window: w });
            requests.push(Request::MapWin { window: w });
            proof {
                assert(requests@ =~= redraw_upto(self@, i + 1));
            }
            i = i + 1;
        }
        requests
    }

    /// Place a newly mapped window and redraw the whole managed set.
    ///
    /// With no focused item the window takes the full usable screen;
    /// otherwise the focused item's rectangle is split along its longer
    /// dimension, the focused item keeps the left or top half and the
    /// new window takes the other, and the split is recorded on both
    /// items. The returned requests are the redraw pass over the grown
    /// managed set.
    pub fn add_window(&mut self, w: u32) -> (requests: Vec<Request>)
        requires
            old(self)@.wf(),
            !old(self)@.has_window(w),
            old(self).next_id < usize::MAX,
        ensures
            final(self)@ == place_tr(old(self)@, w),
            final(self)@.wf(),
            requests@ == redraw_spec(final(self)@),
    {
        let ghost m0 = self@;
        let id = self.next_id;

        let parent_idx: Option<usize> = match self.focus {
            Some(fw) => self.find_window(fw),
            None => None,
        };

        let geom: Geometry;
        let parent_opt: Option<usize>;
        let depth: usize;
        match parent_idx {
            None => {
                geom = Geometry {
                    x: 0,
                    y: self.config.bar_offset as i32,
                    width: self.config.screen_width as u32,
                    height: (self.config.screen_height - self.config.bar_offset) as u32,
                };
                parent_opt = None;
                depth = 0;
            },
            Some(pi) => {
                proof {
                    assert(m0.items[pi as int].wf(m0.next_id));
                }
                let pg = self.items[pi].geom;
                let pid = self.items[pi].id;
                let pdepth = self.items[pi].split_depth;
                let kept: Geometry;
                if pg.width > pg.height {
                    let half = pg.width / 2;
                    kept = Geometry { width: half, ..pg };
                    geom = Geometry { x: pg.x + half as i32, width: pg.width - half, ..pg };
                } else {
                    let half = pg.height / 2;
                    kept = Geometry { height: half, ..pg };
                    geom = Geometry { y: pg.y + half as i32, height: pg.height - half, ..pg };
                }
                let item = &mut self.items[pi];
                item.geom = kept;
                item.split_children.push(id);
                item.split_depth = pdepth + 1;
                parent_opt = Some(pid);
                depth = pdepth + 1;
            },
        }

        self.items.push(WindowItem {
            id,
            window: w,
            geom,
            split_parent: parent_opt,
            split_children: Vec::new(),
            split_depth: depth,
            reverts: Vec::new(),
        });
        self.next_id = id + 1;

        proof {
            assert(self@.items =~~= place_tr(m0, w).items);
            assert(self@ =~~= place_tr(m0, w));
            lemma_place_tr_wf(m0, w);
        }

        self.redraw_requests()
    }

    /// Nudge the focused window toward a screen edge, or undo the most
    /// recent nudge.
    ///
    /// `live` is the window's current rectangle as the protocol reports
    /// it; a directional nudge pushes it onto the item's revert stack
    /// before moving, so a later reset restores exactly what the server
    /// showed. Without a focused managed window the call is a no-op; a
    /// reset on an empty revert stack reports that no reversions remain
    /// and changes nothing.
    pub fn nudge(&mut self, dir: Direction, live: Geometry) -> (out: NudgeOutcome)
        requires
            old(self)@.wf(),
            live@.wf(),
        ensures
            final(self)@ == nudge_tr(old(self)@, dir, live@),
            final(self)@.wf(),
            out == nudge_outcome_spec(old(self)@, dir, live@),
    {
        let ghost m0 = self@;
        proof {
            lemma_nudge_tr_wf(m0, dir, live@);
        }
        let fw = match self.focus {
            Some(fw) => fw,
            None => {
                return NudgeOutcome::NoFocusedItem;
            },
        };
        let idx = match self.find_window(fw) {
            Some(i) => i,
            None => {
                return NudgeOutcome::NoFocusedItem;
            },
        };
        proof {
            assert(m0.focused_index() == Some(idx as int));
            assert(m0.items[idx as int].wf(m0.next_id));
        }
        let c = self.config;
        let w = self.items[idx].window;
        let g = self.items[idx].geom;
        match dir {
            Direction::Reset => {
                let item = &mut self.items[idx];
                let popped = item.reverts.pop();
                match popped {
                    None => {
                        proof {
                            assert(self@ =~~= nudge_tr(m0, dir, live@));
                        }
                        NudgeOutcome::NoReversions
                    },
                    Some(r) => {
                        item.geom = r;
                        proof {
                            assert(self@.items =~~= nudge_tr(m0, dir, live@).items);
                            assert(self@ =~~= nudge_tr(m0, dir, live@));
                        }
                        NudgeOutcome::Configured(ConfigureRequest {
                            window: w,
                            x: Some(r.x),
                            y: Some(r.y),
                            width: Some(r.width),
                            height: Some(r.height),
                            border_width: None,
                        })
                    },
                }
            },
            Direction::Up => {
                let ny = c.bar_offset as i32;
                let nh = (c.screen_height - c.bar_offset) as u32;
                let item = &mut self.items[idx];
                item.reverts.push(live);
                item.geom = Geometry { y: ny, height: nh, ..g };
                proof {
                    assert(self@.items =~~= nudge_tr(m0, dir, live@).items);
                    assert(self@ =~~= nudge_tr(m0, dir, live@));
                }
                NudgeOutcome::Configured(ConfigureRequest {
                    window: w,
                    x: None,
                    y: Some(ny),
                    width: None,
                    height: Some(nh),
                    border_width: None,
                })
            },
            Direction::Left => {
                let nw = c.screen_width as u32;
                let item = &mut self.items[idx];
                item.reverts.push(live);
                item.geom = Geometry { x: 0, width: nw, ..g };
                proof {
                    assert(self@.items =~~= nudge_tr(m0, dir, live@).items);
                    assert(self@ =~~= nudge_tr(m0, dir, live@));
                }
                NudgeOutcome::Configured(ConfigureRequest {
                    window: w,
                    x: Some(0),
                    y: None,
                    width: Some(nw),
                    height: None,
                    border_width: None,
                })
            },
            Direction::Down => {
                let sh = c.screen_height as i32;
                let nh: u32 = if g.y >= sh {
                    0
                } else {
                    (sh - g.y) as u32
                };
                let item = &mut self.items[idx];
                item.reverts.push(live);
                item.geom = Geometry { height: nh, ..g };
                proof {
                    assert(self@.items =~~= nudge_tr(m0, dir, live@).items);
                    assert(self@ =~~= nudge_tr(m0, dir, live@));
                }
                NudgeOutcome::Configured(ConfigureRequest {
                    window: w,
                    x: None,
                    y: Some(g.y),
                    width: None,
                    height: Some(nh),
                    border_width: None,
                })
            },
            Direction::Right => {
                let sw = c.screen_width as i32;
                let nw: u32 = if g.x >= sw {
                    0
                } else {
                    (sw - g.x) as u32
                };
                let item = &mut self.items[idx];
                item.reverts.push(live);
                item.geom = Geometry { width: nw, ..g };
                proof {
                    assert(self@.items =~~= nudge_tr(m0, dir, live@).items);
                    assert(self@ =~~= nudge_tr(m0, dir, live@));
                }
                NudgeOutcome::Configured(ConfigureRequest {
                    window: w,
                    x: Some(g.x),
                    y: None,
                    width: Some(nw),
                    height: None,
                    border_width: None,
                })
            },
        }
    }

    /// The pointer entered window `w`: focus it. Returns the requests to
    /// issue: focused border color, protocol input focus, and a raise.
    pub fn handle_enter(&mut self, w: u32) -> (requests: Vec<Request>)
        requires
            old(self)@.wf(),
        ensures
            final(self)@ == enter_tr(old(self)@, w),
            final(self)@.wf(),
            requests@ == enter_requests(old(self)@, w),
    {
        let ghost m0 = self@;
        self.focus = Some(w);
        let mut requests: Vec<Request> = Vec::new();
        requests.push(Request::ChangeAttributes {
            window: w,
            border_color: self.config.focus_color,
            set_event_mask: false,
        });
        requests.push(Request::SetFocus { window: w });
        requests.push(Request::Raise { window: w });
        proof {
            assert(self@ =~~= enter_tr(m0, w));
            lemma_wf_focus_independent(m0, self@);
            assert(requests@ =~= enter_requests(m0, w));
        }
        requests
    }

    /// The pointer left window `w`: clear the focus. If the window is
    /// still managed, return the request that paints its border back to
    /// the unfocused color; a window already gone is no error and gets
    /// no request.
    pub fn handle_leave(&mut self, w: u32) -> (requests: Vec<Request>)
        requires
            old(self)@.wf(),
        ensures
            final(self)@ == leave_tr(old(self)@),
            final(self)@.wf(),
            requests@ == leave_requests(old(self)@, w),
    {
        let ghost m0 = self@;
        let managed = self.find_window(w).is_some();
        self.focus = None;
        proof {
            assert(self@ =~~= leave_tr(m0));
            lemma_wf_focus_independent(m0, self@);
        }
        let mut requests: Vec<Request> = Vec::new();
        if managed {
            requests.push(Request::ChangeAttributes {
                window: w,
                border_color: self.config.defocus_color,
                set_event_mask: false,
            });
        }
        proof {
            assert(requests@ =~= leave_requests(m0, w));
        }
        requests
    }

    /// The window `w` was unmapped from outside: drop it from the
    /// managed set, clearing every link that pointed at it; an unmanaged
    /// handle is a no-op.
    pub fn handle_unmap(&mut self, w: u32)
        requires
            old(self)@.wf(),
        ensures
            final(self)@ == remove_window_tr(old(self)@, w),
            final(self)@.wf(),
    {
        match self.find_window(w) {
            Some(i) => {
                self.remove_at(i);
            },
            None => {},
        }
    }

    /// Destroy the focused window: if the focus names a managed window,
    /// return the destroy request to issue and drop the item from the
    /// managed set; otherwise do nothing. The managed set shrinks by
    /// exactly one, and no surviving item's links mention the destroyed
    /// one.
    pub fn destroy_focused(&mut self) -> (request: Option<Request>)
        requires
            old(self)@.wf(),
        ensures
            final(self)@ == destroy_tr(old(self)@),
            final(self)@.wf(),
            request == (if old(self)@.has_focused_item() {
                Some(Request::DestroyWin { window: old(self)@.focus.unwrap() })
            } else {
                None::<Request>
            }),
            old(self)@.has_focused_item() ==> {
                &&& final(self)@.items.len() == old(self)@.items.len() - 1
                &&& !final(self)@.has_window(old(self)@.focus.unwrap())
            },
    {
        let ghost m0 = self@;
        let fw = match self.focus {
            Some(fw) => fw,
            None => {
                return None;
            },
        };
        let idx = match self.find_window(fw) {
            Some(i) => i,
            None => {
                return None;
            },
        };
        proof {
            assert(m0.focused_index() == Some(idx as int));
            lemma_remove_window(m0, fw);
        }
        self.remove_at(idx);
        Some(Request::DestroyWin { window: fw })
    }

    /// Drop the item at position `idx`, closing ranks and clearing every
    /// link to it on the surviving items.
    fn remove_at(&mut self, idx: usize)
        requires
            old(self)@.wf(),
            idx < old(self).items.len(),
        ensures
            final(self)@ == remove_window_tr(old(self)@, old(self)@.items[idx as int].window),
            final(self)@.wf(),
    {
        let ghost m0 = self@;
        let ghost i = idx as int;
        let ghost w = m0.items[i].window;
        proof {
            m0.lemma_window_index_unique(i);
            lemma_remove_window_tr_wf(m0, w);
        }
        let ghost m2 = remove_window_tr(m0, w);
        let rid = self.items[idx].id;
        self.items.remove(idx);
        proof {
            assert(rid as int == m0.items[i].id);
            assert(m2.items == removed_items(m0.items, i, m0.items[i].id));
            assert(self@.items.len() == m2.items.len());
            assert forall|j: int| 0 <= j < self@.items.len() implies #[trigger] self@.items[j]
                == m0.items[if j < i {
                j
            } else {
                j + 1
            }] by {
                if j < i {
                    assert(self.items@[j] == old(self).items@.subrange(0, i)[j]);
                } else {
                    assert(self.items@[j] == old(self).items@.subrange(
                        i + 1,
                        old(self).items@.len() as int,
                    )[j - i]);
                }
            }
        }
        let mut k: usize = 0;
        while k < self.items.len()
            invariant
                0 <= i < m0.items.len(),
                rid as int == m0.items[i].id,
                m2.config == m0.config,
                m2.focus == m0.focus,
                m2.next_id == m0.next_id,
                m2.items.len() == m0.items.len() - 1,
                self@.config == m0.config,
                self@.focus == m0.focus,
                self@.next_id == m0.next_id,
                self@.items.len() == m2.items.len(),
                k <= m2.items.len(),
                forall|j: int|
                    0 <= j < m2.items.len() ==> #[trigger] m2.items[j] == scrub_links(
                        m0.items[if j < i {
                            j
                        } else {
                            j + 1
                        }],
                        m0.items[i].id,
                    ),
                forall|j: int| 0 <= j < k ==> #[trigger] self@.items[j] == m2.items[j],
                forall|j: int|
                    k <= j < m2.items.len() ==> #[trigger] self@.items[j] == m0.items[if j < i {
                        j
                    } else {
                        j + 1
                    }],
            decreases m2.items.len() - k,
        {
            let ghost pre = self@.items;
            let item = &mut self.items[k];
            match item.split_parent {
                Some(p) => {
                    if p == rid {
                        item.split_parent = None;
                    }
                },
                None => {},
            }
            remove_matching(&mut item.split_children, rid);
            proof {
                let ok = if (k as int) < i {
                    k as int
                } else {
                    k as int + 1
                };
                let before = m0.items[ok];
                assert(pre[k as int] == before);
                assert(self@.items[k as int].id == before.id);
                assert(self@.items[k as int].window == before.window);
                assert(self@.items[k as int].geom == before.geom);
                assert(self@.items[k as int].split_depth == before.split_depth);
                assert(self@.items[k as int].reverts == before.reverts);
                assert(self@.items[k as int].split_children == without_id(
                    before.split_children,
                    rid as int,
                ));
                assert(self@.items[k as int].split_parent == (if before.split_parent == Some(
                    rid as int,
                ) {
                    None
                } else {
                    before.split_parent
                }));
                assert(self@.items[k as int] =~~= scrub_links(before, rid as int));
                assert(self@.items[k as int] == m2.items[k as int]);
                assert(forall|j: int|
                    0 <= j < self@.items.len() && j != k ==> #[trigger] self@.items[j] == pre[j]);
            }
            k = k + 1;
        }
        proof {
            assert(self@.items =~= m2.items);
            assert(self@ =~~= m2);
        }
    }

    /// The stable id of the managed window `w`, if it is managed.
    pub fn id_of(&self, w: u32) -> (r: Option<usize>)
        requires
            self@.wf(),
        ensures
            match r {
                Some(id) => self@.has_window(w) && id == self@.items[self@.window_index(w)].id,
                None => !self@.has_window(w),
            },
    {
        match self.find_window(w) {
            Some(i) => Some(self.items[i].id),
            None => None,
        }
    }

    /// The split depth of the managed window `w`, if it is managed.
    pub fn split_depth_of(&self, w: u32) -> (r: Option<usize>)
        requires
            self@.wf(),
        ensures
            match r {
                Some(d) => self@.has_window(w) && d == self@.items[self@.window_index(w)].split_depth,
                None => !self@.has_window(w),
            },
    {
        match self.find_window(w) {
            Some(i) => Some(self.items[i].split_depth),
            None => None,
        }
    }

    /// The parent link of the managed window `w`: `None` when the window
    /// is not managed, otherwise the id of the item it was split from,
    /// if any.
    pub fn split_parent_of(&self, w: u32) -> (r: Option<Option<usize>>)
        requires
            self@.wf(),
        ensures
            match r {
                Some(p) => {
                    &&& self@.has_window(w)
                    &&& match p {
                        Some(pid) => self@.items[self@.window_index(w)].split_parent == Some(
                            pid as int,
                        ),
                        None => self@.items[self@.window_index(w)].split_parent is None,
                    }
                },
                None => !self@.has_window(w),
            },
    {
        match self.find_window(w) {
            Some(i) => Some(self.items[i].split_parent),
            None => None,
        }
    }

    /// How many prior rectangles the managed window `w` still remembers,
    /// if it is managed.
    pub fn revert_count_of(&self, w: u32) -> (r: Option<usize>)
        requires
            self@.wf(),
        ensures
            match r {
                Some(d) => self@.has_window(w) && d == self@.items[self@.window_index(w)].reverts.len(),
                None => !self@.has_window(w),
            },
    {
        match self.find_window(w) {
            Some(i) => Some(self.items[i].reverts.len()),
            None => None,
        }
    }

    /// The ids of the items split out of the managed window `w`, in
    /// creation order, if it is managed.
    pub fn split_children_of(&self, w: u32) -> (r: Option<Vec<usize>>)
        requires
            self@.wf(),
        ensures
            match r {
                Some(cs) => self@.has_window(w) && child_ids(cs@) == self@.items[self@.window_index(
                    w,
                )].split_children,
                None => !self@.has_window(w),
            },
    {
        let i = match self.find_window(w) {
            Some(i) => i,
            None => {
                return None;
            },
        };
        let mut cs: Vec<usize> = Vec::new();
        let mut j: usize = 0;
        while j < self.items[i].split_children.len()
            invariant
                i < self.items@.len(),
                j <= self.items@[i as int].split_children@.len(),
                cs@ == self.items@[i as int].split_children@.take(j as int),
            decreases self.items@[i as int].split_children@.len() - j,
        {
            cs.push(self.items[i].split_children[j]);
            proof {
                assert(cs@ =~= self.items@[i as int].split_children@.take(j as int + 1));
            }
            j = j + 1;
        }
        proof {
            assert(cs@ =~= self.items@[i as int].split_children@);
            assert(child_ids(cs@) == self@.items[i as int].split_children);
        }
        Some(cs)
    }

    /// Linear search for the item owning handle `w`.
    fn find_window(&self, w: u32) -> (r: Option<usize>)
        requires
            self@.wf(),
        ensures
            match r {
                Some(i) => {
                    &&& i < self.items.len()
                    &&& self@.items[i as int].window == w
                    &&& self@.has_window(w)
                    &&& self@.window_index(w) == i
                },
                None => !self@.has_window(w),
            },
    {
        let mut i: usize = 0;
        while i < self.items.len()
            invariant
                self@.wf(),
                i <= self.items.len(),
                forall|k: int| 0 <= k < i ==> (#[trigger] self@.items[k]).window != w,
            decreases self.items.len() - i,
        {
            if self.items[i].window == w {
                proof {
                    self@.lemma_window_index_unique(i as int);
                }
                return Some(i);
            }
            i = i + 1;
        }
        None
    }
}

} // verus!
