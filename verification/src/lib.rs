//! A retained-mode layout engine for a tree of UI boxes.
//!
//! The engine keeps a forest of frames in a generational slot store, tracks
//! which frames need relayout, and measures each subtree's desired size
//! bottom-up from the declared box model. Consumers read back the computed
//! geometry (`Space`) and the declared box model (`Style`) per frame, and
//! query frames under a point for interaction dispatch.

use vstd::prelude::*;

pub mod boxalloc;
pub mod color;
pub mod commands;
pub mod position;
pub mod sizing;

use std::collections::VecDeque;

use crate::boxalloc::Allocator;
use crate::color::Color;
use crate::position::{AlignItems, Direction, JustifyContent, LayoutStrategy, Position};
use crate::sizing::{sat32, spec_resolve_size, Border, Margin, Padding, Shadow, SizeSpec};

verus! {

/// Computed geometry of a frame: absolute position in integer pixels and
/// the resolved size. `width`/`height` are `None` only before the measure
/// pass has run over the frame.
#[derive(Debug, Clone, Copy, PartialEq, Eq, Structural)]
pub struct Space {
    pub x: i32,
    pub y: i32,
    pub width: Option<u32>,
    pub height: Option<u32>,
}

impl Space {
    /// The zero space: origin position, no measured size yet.
    pub fn zero() -> (s: Space)
        ensures
            s == (Space { x: 0, y: 0, width: None::<u32>, height: None::<u32> }),
    {
        Space { x: 0, y: 0, width: None, height: None }
    }

    /// The same space with the width fixed.
    pub fn with_width(self, width: u32) -> (s: Space)
        ensures
            s == (Space { width: Some(width), ..self }),
    {
        Space { width: Some(width), ..self }
    }

    /// The same space with the height fixed.
    pub fn with_height(self, height: u32) -> (s: Space)
        ensures
            s == (Space { height: Some(height), ..self }),
    {
        Space { height: Some(height), ..self }
    }
}

/// Whether the point lies inside the computed box, bounds inclusive on all
/// four edges; an extent not yet measured counts as zero.
pub open spec fn spec_hit(s: Space, x: int, y: int) -> bool {
    let w: int = if s.width is Some {
        s.width->Some_0 as int
    } else {
        0
    };
    let h: int = if s.height is Some {
        s.height->Some_0 as int
    } else {
        0
    };
    &&& s.x <= x <= s.x + w
    &&& s.y <= y <= s.y + h
}

/// An index into the payload store a frame's bound data lives in.
pub type DataRef = usize;

/// A stable handle to a frame: the slot index and the generation the slot
/// had when the frame was created. A removed frame's slot advances its
/// generation, so handles to it keep failing lookups even after the slot is
/// recycled for a new frame.
#[derive(Debug, Clone, Copy, PartialEq, Eq, PartialOrd, Ord, Hash, Structural)]
pub struct CapsuleRef {
    pub(crate) id: usize,
    pub(crate) generation: u32,
}

impl CapsuleRef {
    /// The slot index the handle points at.
    pub closed spec fn spec_id(&self) -> int {
        self.id as int
    }

    /// The slot generation the handle was minted with.
    pub closed spec fn spec_generation(&self) -> int {
        self.generation as int
    }

    /// Handles order by slot index, then by generation: the final tiebreak
    /// interaction dispatch relies on for deterministic topmost-wins.
    pub open spec fn spec_lt(self, other: CapsuleRef) -> bool {
        self.spec_id() < other.spec_id() || (self.spec_id() == other.spec_id()
            && self.spec_generation() < other.spec_generation())
    }
}

/// One slot of the frame store: the frame living there, if any, and the
/// slot's current generation.
pub struct CapsuleSlot {
    pub capsule: Option<Capsule>,
    pub(crate) generation: u32,
}

/// One frame record: where its geometry and style live in the parallel
/// tables, its place in the tree, and its optional bound payload.
pub struct Capsule {
    pub space_ref: usize,
    pub parent_ref: Option<CapsuleRef>,
    pub style_ref: usize,
    pub data_ref: Option<DataRef>,
    pub(crate) children: Vec<CapsuleRef>,
    pub(crate) depth: Ghost<int>,
}

impl Capsule {
    /// The frame's children, in insertion order — which is layout order and
    /// the default stacking order among equal z-indices.
    pub fn children(&self) -> (r: &Vec<CapsuleRef>)
        ensures
            r@ == self.spec_children(),
    {
        &self.children
    }

    /// The frame's children, in insertion order.
    pub closed spec fn spec_children(&self) -> Seq<CapsuleRef> {
        self.children@
    }
}

/// The declared box model of one frame.
#[derive(Debug, Clone, Copy, PartialEq, Eq, Structural)]
pub struct Style {
    /// Fill color of the frame's box.
    pub background_color: Color,
    /// How the frame sizes itself horizontally.
    pub width: SizeSpec,
    /// How the frame sizes itself vertically.
    pub height: SizeSpec,
    /// Inner spacing between border and content.
    pub padding: Padding,
    /// Outer spacing the frame claims around itself.
    pub margin: Margin,
    /// Border stroke; its width takes space inside the frame.
    pub border: Border,
    /// Drop shadow; purely visual.
    pub shadow: Shadow,
    /// Weight with which the frame takes leftover flow space.
    pub flex_grow: u32,
    /// Weight with which the frame gives up space when the flow overflows.
    pub flex_shrink: u32,
    /// How the frame arranges its children.
    pub layout: LayoutStrategy,
    /// Main axis of flow layout.
    pub flow: Direction,
    /// Pixels between adjacent in-flow children.
    pub gap: u32,
    /// Declared distribution of children along the main axis.
    pub justify_content: JustifyContent,
    /// Declared alignment of children along the cross axis.
    pub align_items: AlignItems,
    /// Placement relative to the parent.
    pub position: Position,
    /// Content width measured by a component (for example shaped text),
    /// consumed by `Fit`/`Auto` sizing of childless frames.
    pub intrinsic_width: Option<u32>,
    /// Content height measured by a component.
    pub intrinsic_height: Option<u32>,
    /// Draw order: higher draws later. Among equal z-indices the frame
    /// created first draws first (underneath).
    pub z_index: u32,
}

/// The style every new frame starts with.
pub open spec fn spec_default_style() -> Style {
    Style {
        background_color: Color { r: 255u8, g: 255u8, b: 255u8, a: 255u8 },
        width: SizeSpec::Pixel(0u32),
        height: SizeSpec::Pixel(0u32),
        padding: Padding { left: 0u32, right: 0u32, top: 0u32, bottom: 0u32 },
        margin: Margin { left: 0u32, right: 0u32, top: 0u32, bottom: 0u32 },
        border: Border {
            size: 0u32,
            radius: 0u32,
            color: Color { r: 255u8, g: 255u8, b: 255u8, a: 255u8 },
        },
        shadow: Shadow { color: Color { r: 0u8, g: 0u8, b: 0u8, a: 0u8 }, blur: 0u32 },
        flex_grow: 0u32,
        flex_shrink: 1u32,
        layout: LayoutStrategy::Flex,
        flow: Direction::Row,
        gap: 0u32,
        justify_content: JustifyContent::Start,
        align_items: AlignItems::Start,
        position: Position::Auto,
        intrinsic_width: None,
        intrinsic_height: None,
        z_index: 0u32,
    }
}

impl Default for Style {
    fn default() -> (s: Style)
        ensures
            s == spec_default_style(),
    {
        Style {
            background_color: Color::default(),
            width: SizeSpec::default(),
            height: SizeSpec::default(),
            padding: Padding::default(),
            margin: Margin::default(),
            border: Border::default(),
            shadow: Shadow::default(),
            flex_grow: 0,
            flex_shrink: 1,
            layout: LayoutStrategy::default(),
            flow: Direction::default(),
            gap: 0,
            justify_content: JustifyContent::default(),
            align_items: AlignItems::default(),
            position: Position::default(),
            intrinsic_width: None,
            intrinsic_height: None,
            z_index: 0,
        }
    }
}

/// A lightweight handle wrapper frames are addressed through.
#[derive(Debug, Clone, Copy, PartialEq, Eq, Structural)]
pub struct Frame {
    pub(crate) capsule_ref: CapsuleRef,
}

impl Frame {
    /// Wraps an existing handle.
    pub fn define(capsule_ref: CapsuleRef) -> (f: Frame)
        ensures
            f.spec_ref() == capsule_ref,
    {
        Frame { capsule_ref }
    }

    /// The wrapped handle.
    pub fn get_ref(&self) -> (r: CapsuleRef)
        ensures
            r == self.spec_ref(),
    {
        self.capsule_ref
    }

    /// The wrapped handle.
    pub closed spec fn spec_ref(&self) -> CapsuleRef {
        self.capsule_ref
    }
}

/// Whether slot `i` holds a live frame.
spec fn occ(caps: Seq<CapsuleSlot>, i: int) -> bool {
    0 <= i < caps.len() && caps[i].capsule is Some
}

/// The frame record in slot `i`.
spec fn cap_at(caps: Seq<CapsuleSlot>, i: int) -> Capsule {
    caps[i].capsule->Some_0
}

/// The handle slot `i` currently mints.
spec fn ref_at(caps: Seq<CapsuleSlot>, i: int) -> CapsuleRef {
    CapsuleRef { id: i as usize, generation: caps[i].generation }
}

/// Whether `r` is a live handle: in range, generation matches, slot occupied.
spec fn live_in(caps: Seq<CapsuleSlot>, r: CapsuleRef) -> bool {
    occ(caps, r.id as int) && caps[r.id as int].generation == r.generation
}

/// The tree shape is consistent: every child entry is a live handle whose
/// record points back at its parent; children are distinct; every parent
/// link points at a live frame that lists the linked frame among its
/// children, one depth level up; and every depth lies under `bound`.
spec fn tree_wf(caps: Seq<CapsuleSlot>, bound: int) -> bool {
    &&& forall|i: int, k: int|
        occ(caps, i) && 0 <= k < cap_at(caps, i).children@.len() ==> {
            let ch = #[trigger] cap_at(caps, i).children@[k];
            &&& live_in(caps, ch)
            &&& cap_at(caps, ch.id as int).parent_ref == Some(ref_at(caps, i))
        }
    &&& forall|i: int, k1: int, k2: int|
        occ(caps, i) && 0 <= k1 < k2 < cap_at(caps, i).children@.len()
            ==> (#[trigger] cap_at(caps, i).children@[k1]).id != (#[trigger] cap_at(
            caps,
            i,
        ).children@[k2]).id
    &&& forall|i: int|
        occ(caps, i) && (#[trigger] cap_at(caps, i).parent_ref) is Some ==> {
            let p = cap_at(caps, i).parent_ref->Some_0;
            &&& live_in(caps, p)
            &&& cap_at(caps, p.id as int).children@.contains(ref_at(caps, i))
            &&& cap_at(caps, i).depth@ == cap_at(caps, p.id as int).depth@ + 1
        }
    &&& forall|i: int|
        occ(caps, i) ==> 0 <= (#[trigger] cap_at(caps, i).depth@) < bound
}

/// The scene graph: every frame slot, the parallel geometry and style
/// tables, the set of frames waiting for relayout, and the payload store.
/// The generic parameter is the payload type frames can bind.
pub struct Root<D> {
    pub(crate) capsules: Vec<CapsuleSlot>,
    pub(crate) capsule_free_list: VecDeque<usize>,
    pub(crate) spaces: Vec<Option<Space>>,
    pub(crate) styles: Vec<Option<Style>>,
    pub(crate) dirties: Vec<CapsuleRef>,
    pub(crate) allocator: Allocator<D>,
    pub(crate) depth_bound: Ghost<int>,
}

impl<D> Root<D> {
    /// The frame slots.
    pub closed spec fn caps(&self) -> Seq<CapsuleSlot> {
        self.capsules@
    }

    /// How many slots the store has (live or free).
    pub closed spec fn n_slots(&self) -> int {
        self.capsules@.len() as int
    }

    /// The generation slot `i` currently carries.
    pub closed spec fn gen_of(&self, i: int) -> int
        recommends
            0 <= i < self.n_slots(),
    {
        self.capsules@[i].generation as int
    }

    /// Whether `r` is a live handle in this graph.
    pub closed spec fn live(&self, r: CapsuleRef) -> bool {
        live_in(self.capsules@, r)
    }

    /// The frame record `r` points at.
    pub closed spec fn cap_of(&self, r: CapsuleRef) -> Capsule
        recommends
            self.live(r),
    {
        cap_at(self.capsules@, r.id as int)
    }

    /// The computed geometry of the frame at `r`, when `r` is live.
    pub closed spec fn space_of(&self, r: CapsuleRef) -> Option<Space> {
        if self.live(r) {
            self.spaces@[self.cap_of(r).space_ref as int]
        } else {
            None
        }
    }

    /// The declared style of the frame at `r`, when `r` is live.
    pub closed spec fn style_of(&self, r: CapsuleRef) -> Option<Style> {
        if self.live(r) {
            self.styles@[self.cap_of(r).style_ref as int]
        } else {
            None
        }
    }

    /// The parent handle of the frame at `r`, if it has one.
    pub closed spec fn parent_of(&self, r: CapsuleRef) -> Option<CapsuleRef>
        recommends
            self.live(r),
    {
        self.cap_of(r).parent_ref
    }

    /// The children of the frame at `r`, in insertion order.
    pub closed spec fn children_of(&self, r: CapsuleRef) -> Seq<CapsuleRef>
        recommends
            self.live(r),
    {
        self.cap_of(r).children@
    }

    /// The payload index bound to the frame at `r`, if any.
    pub closed spec fn data_of(&self, r: CapsuleRef) -> Option<DataRef>
        recommends
            self.live(r),
    {
        self.cap_of(r).data_ref
    }

    /// Whether the frame at `r` waits for relayout.
    pub closed spec fn dirty(&self, r: CapsuleRef) -> bool {
        self.dirties@.contains(r)
    }

    /// Whether any frame waits for relayout.
    pub closed spec fn spec_is_dirty(&self) -> bool {
        self.dirties@.len() > 0
    }

    /// The canvas geometry: the size the whole forest is laid out against.
    pub closed spec fn canvas(&self) -> Space
        recommends
            self.wf(),
    {
        self.spaces@[0]->Some_0
    }

    /// The payload store's slots.
    pub closed spec fn bindings(&self) -> Seq<Option<D>> {
        self.allocator.slots()
    }

    /// The internal invariant every operation preserves: the canvas exists;
    /// every live frame's geometry and style slots are in range, occupied,
    /// owned by no other frame, and distinct from the canvas slot; the tree
    /// links are mutually consistent and acyclic; every free-list entry is a
    /// distinct empty slot; the payload store is well formed; and a dirty
    /// frame's parent is dirty too (marking propagates to the top, so the
    /// solver can find every dirty frame from the top-level frames).
    pub closed spec fn wf(&self) -> bool {
        let caps = self.capsules@;
        &&& self.spaces@.len() >= 1
        &&& self.spaces@[0] is Some
        &&& forall|i: int|
            occ(caps, i) ==> {
                let c = #[trigger] cap_at(caps, i);
                &&& 1 <= c.space_ref < self.spaces@.len()
                &&& self.spaces@[c.space_ref as int] is Some
                &&& c.style_ref < self.styles@.len()
                &&& self.styles@[c.style_ref as int] is Some
            }
        &&& forall|i: int, j: int|
            occ(caps, i) && occ(caps, j) && i != j ==> (#[trigger] cap_at(caps, i)).space_ref != (
            #[trigger] cap_at(caps, j)).space_ref && cap_at(caps, i).style_ref != cap_at(
                caps,
                j,
            ).style_ref
        &&& tree_wf(caps, self.depth_bound@)
        &&& forall|k: int|
            0 <= k < self.capsule_free_list@.len() ==> (#[trigger] self.capsule_free_list@[k])
                < caps.len() && caps[self.capsule_free_list@[k] as int].capsule is None
        &&& forall|k1: int, k2: int|
            0 <= k1 < k2 < self.capsule_free_list@.len() ==> self.capsule_free_list@[k1]
                != self.capsule_free_list@[k2]
        &&& self.allocator.wf()
        &&& forall|r: CapsuleRef|
            #[trigger] self.dirties@.contains(r) && live_in(caps, r) && cap_at(
                caps,
                r.id as int,
            ).parent_ref is Some ==> self.dirties@.contains(
                cap_at(caps, r.id as int).parent_ref->Some_0,
            )
    }

    /// An empty scene graph whose canvas has the given size. No frames yet;
    /// nothing waits for relayout.
    pub fn new(width: u32, height: u32) -> (root: Root<D>)
        ensures
            root.wf(),
            root.n_slots() == 0,
            root.canvas() == (Space { x: 0, y: 0, width: Some(width), height: Some(height) }),
            !root.spec_is_dirty(),
            root.bindings() == Seq::<Option<D>>::empty(),
    {
        let mut spaces: Vec<Option<Space>> = Vec::new();
        spaces.push(Some(Space::zero().with_width(width).with_height(height)));
        Root {
            capsules: Vec::new(),
            capsule_free_list: VecDeque::new(),
            spaces,
            styles: Vec::new(),
            dirties: Vec::new(),
            allocator: Allocator::new(),
            depth_bound: Ghost(0int),
        }
    }

    /// Whether any frame waits for relayout; `compute` is a no-op exactly
    /// when this is false.
    pub fn is_dirty(&self) -> (r: bool)
        ensures
            r == self.spec_is_dirty(),
    {
        self.dirties.len() > 0
    }

    /// The live frame record at `frame_ref`; nothing for a stale or
    /// out-of-range handle.
    pub fn get_capsule(&self, frame_ref: CapsuleRef) -> (r: Option<&Capsule>)
        ensures
            match r {
                Some(c) => self.live(frame_ref) && *c == self.cap_of(frame_ref),
                None => !self.live(frame_ref),
            },
    {
        if frame_ref.id < self.capsules.len() {
            let slot = &self.capsules[frame_ref.id];
            if slot.generation == frame_ref.generation {
                slot.capsule.as_ref()
            } else {
                None
            }
        } else {
            None
        }
    }

    /// A snapshot of the declared style at `frame_ref`; nothing for a stale
    /// handle.
    pub fn get_style(&self, frame_ref: CapsuleRef) -> (r: Option<Style>)
        requires
            self.wf(),
        ensures
            r == self.style_of(frame_ref),
    {
        match self.get_capsule(frame_ref) {
            Some(cap) => {
                let style_ref = cap.style_ref;
                self.styles[style_ref]
            },
            None => None,
        }
    }

    /// A snapshot of the computed geometry at `frame_ref`; nothing for a
    /// stale handle.
    pub fn get_space(&self, frame_ref: CapsuleRef) -> (r: Option<Space>)
        requires
            self.wf(),
        ensures
            r == self.space_of(frame_ref),
    {
        match self.get_capsule(frame_ref) {
            Some(cap) => {
                let space_ref = cap.space_ref;
                self.spaces[space_ref]
            },
            None => None,
        }
    }

    /// Every live frame whose computed box contains the point, bounds
    /// inclusive, in slot order (strictly ascending slot ids). The scan
    /// ignores z-index, visibility and clipping: interaction dispatch sorts
    /// the hits by z-index and handle order itself.
    pub fn hit_test(&self, x: i32, y: i32) -> (hits: Vec<CapsuleRef>)
        requires
            self.wf(),
        ensures
            forall|r: CapsuleRef|
                #[trigger] hits@.contains(r) <==> (self.live(r) && self.space_of(r) is Some
                    && spec_hit(self.space_of(r)->Some_0, x as int, y as int)),
            forall|k1: int, k2: int|
                0 <= k1 < k2 < hits@.len() ==> (#[trigger] hits@[k1]).spec_id() < (
                #[trigger] hits@[k2]).spec_id(),
    {
        let mut hits: Vec<CapsuleRef> = Vec::new();
        let mut i: usize = 0;
        while i < self.capsules.len()
            invariant
                self.wf(),
                i <= self.capsules@.len(),
                forall|k: int| 0 <= k < hits@.len() ==> (#[trigger] hits@[k]).id < i,
                forall|k1: int, k2: int|
                    0 <= k1 < k2 < hits@.len() ==> (#[trigger] hits@[k1]).id < (
                    #[trigger] hits@[k2]).id,
                forall|r: CapsuleRef|
                    #[trigger] hits@.contains(r) ==> self.live(r) && self.space_of(r) is Some
                        && spec_hit(self.space_of(r)->Some_0, x as int, y as int),
                forall|r: CapsuleRef|
                    self.live(r) && r.id < i && self.space_of(r) is Some && spec_hit(
                        self.space_of(r)->Some_0,
                        x as int,
                        y as int,
                    ) ==> #[trigger] hits@.contains(r),
            decreases self.capsules@.len() - i,
        {
            let slot = &self.capsules[i];
            let ghost pre = hits@;
            match &slot.capsule {
                Some(caps) => {
                    proof {
                        assert(occ(self.capsules@, i as int));
                        assert(cap_at(self.capsules@, i as int) == *caps);
                    }
                    match self.spaces[caps.space_ref] {
                        Some(fs) => {
                            let w: u32 = match fs.width {
                                Some(w) => w,
                                None => 0,
                            };
                            let h: u32 = match fs.height {
                                Some(h) => h,
                                None => 0,
                            };
                            if (x as i64) >= (fs.x as i64) && (x as i64) <= (fs.x as i64) + (
                            w as i64) && (y as i64) >= (fs.y as i64) && (y as i64) <= (fs.y as i64)
                                + (h as i64) {
                                let nr = CapsuleRef { id: i, generation: slot.generation };
                                hits.push(nr);
                                proof {
                                    assert(self.live(nr));
                                    assert(self.space_of(nr) == Some(fs));
                                    assert forall|r: CapsuleRef| true implies #[trigger] hits@.contains(
                                        r,
                                    ) == (pre.contains(r) || r == nr) by {
                                        lemma_push_contains(pre, nr, r);
                                    }
                                }
                            }
                        },
                        None => {
                            proof {
                                assert(occ(self.capsules@, i as int));
                                assert(false);
                            }
                        },
                    }
                },
                None => {},
            }
            proof {
                assert forall|r: CapsuleRef|
                    self.live(r) && r.id < i + 1 && self.space_of(r) is Some && spec_hit(
                        self.space_of(r)->Some_0,
                        x as int,
                        y as int,
                    ) implies #[trigger] hits@.contains(r) by {
                    if r.id == i {
                        assert(occ(self.capsules@, i as int));
                        assert(r.generation == self.capsules@[i as int].generation);
                    }
                }
            }
            i += 1;
        }
        hits
    }

    /// The depth of the frame at `r` in the tree: zero for a top-level
    /// frame, one more than its parent otherwise; zero for stale handles.
    pub closed spec fn depth_of(&self, r: CapsuleRef) -> int {
        if self.live(r) {
            self.cap_of(r).depth@
        } else {
            0
        }
    }

    /// The free slot indices waiting to be recycled, oldest first.
    pub closed spec fn free_ids(&self) -> Seq<usize> {
        self.capsule_free_list@
    }

    /// The chain of ancestors of `r`, nearest first: its parent, the
    /// parent's parent, and so on up to a top-level frame.
    pub closed spec fn anc_chain(&self, r: CapsuleRef) -> Seq<CapsuleRef> {
        chain_in(self.capsules@, self.depth_bound@, r)
    }

    /// The ancestor chain steps through live frames, and every member's
    /// parent is a member again.
    pub proof fn lemma_anc_chain_closed(&self, r: CapsuleRef, q: CapsuleRef)
        requires
            self.wf(),
            self.anc_chain(r).contains(q),
        ensures
            self.live(q),
            self.parent_of(q) is Some ==> self.anc_chain(r).contains(self.parent_of(q)->Some_0),
        decreases self.depth_of(r),
    {
        if !(self.live(r) && self.cap_of(r).parent_ref is Some) {
            assert(self.anc_chain(r) == Seq::<CapsuleRef>::empty());
        }
        let p = self.cap_of(r).parent_ref->Some_0;
        lemma_concat_contains(seq![p], self.anc_chain(p), q);
        if q == p {
            if self.parent_of(q) is Some {
                let pp = self.parent_of(p)->Some_0;
                assert(self.anc_chain(p) == seq![pp] + self.anc_chain(pp));
                assert((seq![pp] + self.anc_chain(pp))[0] == pp);
                lemma_concat_contains(seq![p], self.anc_chain(p), pp);
            }
        } else {
            assert(self.anc_chain(p).contains(q));
            self.lemma_anc_chain_closed(p, q);
            if self.parent_of(q) is Some {
                lemma_concat_contains(seq![p], self.anc_chain(p), self.parent_of(q)->Some_0);
            }
        }
    }
}

/// Both graphs hold the same frames: the same slots with the same
/// generations and liveness, and every live frame has the same parent,
/// children and bound payload in both.
pub open spec fn same_tree<D>(pre: &Root<D>, post: &Root<D>) -> bool {
    &&& post.n_slots() == pre.n_slots()
    &&& forall|i: int| 0 <= i < pre.n_slots() ==> post.gen_of(i) == pre.gen_of(i)
    &&& forall|r: CapsuleRef| #[trigger] post.live(r) == pre.live(r)
    &&& forall|r: CapsuleRef|
        pre.live(r) ==> #[trigger] post.parent_of(r) == pre.parent_of(r) && post.children_of(r)
            == pre.children_of(r) && post.data_of(r) == pre.data_of(r)
    &&& post.free_ids() == pre.free_ids()
}

/// Every live frame keeps its computed geometry, and the canvas keeps its
/// size.
pub open spec fn same_spaces<D>(pre: &Root<D>, post: &Root<D>) -> bool {
    &&& forall|r: CapsuleRef| pre.live(r) ==> #[trigger] post.space_of(r) == pre.space_of(r)
    &&& post.canvas() == pre.canvas()
}

/// Every live frame keeps its declared style.
pub open spec fn same_styles<D>(pre: &Root<D>, post: &Root<D>) -> bool {
    forall|r: CapsuleRef| pre.live(r) ==> #[trigger] post.style_of(r) == pre.style_of(r)
}

/// The payload store is untouched.
pub open spec fn same_bindings<D>(pre: &Root<D>, post: &Root<D>) -> bool {
    post.bindings() == pre.bindings()
}

/// The same frames wait for relayout.
pub open spec fn same_dirty<D>(pre: &Root<D>, post: &Root<D>) -> bool {
    &&& forall|r: CapsuleRef| #[trigger] post.dirty(r) == pre.dirty(r)
    &&& post.spec_is_dirty() == pre.spec_is_dirty()
}

/// The chain of ancestors of `r` in a consistent tree, nearest first.
spec fn chain_in(caps: Seq<CapsuleSlot>, bound: int, r: CapsuleRef) -> Seq<CapsuleRef>
    decreases (if live_in(caps, r) {
        cap_at(caps, r.id as int).depth@
    } else {
        0int
    })
        when tree_wf(caps, bound)
{
    if live_in(caps, r) && cap_at(caps, r.id as int).parent_ref is Some {
        let p = cap_at(caps, r.id as int).parent_ref->Some_0;
        seq![p] + chain_in(caps, bound, p)
    } else {
        Seq::empty()
    }
}

/// Membership in a concatenation is membership in either part.
proof fn lemma_concat_contains<A>(a: Seq<A>, b: Seq<A>, y: A)
    ensures
        (a + b).contains(y) <==> (a.contains(y) || b.contains(y)),
{
    if a.contains(y) {
        let w = choose|w: int| 0 <= w < a.len() && a[w] == y;
        assert((a + b)[w] == y);
    }
    if b.contains(y) {
        let w = choose|w: int| 0 <= w < b.len() && b[w] == y;
        assert((a + b)[a.len() + w] == y);
    }
    if (a + b).contains(y) {
        let w = choose|w: int| 0 <= w < (a + b).len() && (a + b)[w] == y;
        if w < a.len() {
            assert(a[w] == y);
        } else {
            assert(b[w - a.len()] == y);
        }
    }
}

/// A member of an ancestor chain is live and sits strictly above the
/// chain's owner.
proof fn lemma_chain_member(caps: Seq<CapsuleSlot>, bound: int, q: CapsuleRef, a: CapsuleRef)
    requires
        tree_wf(caps, bound),
        live_in(caps, q),
        chain_in(caps, bound, q).contains(a),
    ensures
        live_in(caps, a),
        cap_at(caps, a.id as int).depth@ < cap_at(caps, q.id as int).depth@,
    decreases cap_at(caps, q.id as int).depth@,
{
    if cap_at(caps, q.id as int).parent_ref is Some {
        let p = cap_at(caps, q.id as int).parent_ref->Some_0;
        lemma_concat_contains(seq![p], chain_in(caps, bound, p), a);
        if a != p {
            lemma_chain_member(caps, bound, p, a);
        }
    } else {
        assert(chain_in(caps, bound, q) == Seq::<CapsuleRef>::empty());
    }
}

/// Two chain members at the same depth are the same frame: the chain walks
/// one frame per level.
proof fn lemma_chain_depth_unique(
    caps: Seq<CapsuleSlot>,
    bound: int,
    q: CapsuleRef,
    a: CapsuleRef,
    b: CapsuleRef,
)
    requires
        tree_wf(caps, bound),
        live_in(caps, q),
        chain_in(caps, bound, q).contains(a),
        chain_in(caps, bound, q).contains(b),
        cap_at(caps, a.id as int).depth@ == cap_at(caps, b.id as int).depth@,
    ensures
        a == b,
    decreases cap_at(caps, q.id as int).depth@,
{
    if cap_at(caps, q.id as int).parent_ref is Some {
        let p = cap_at(caps, q.id as int).parent_ref->Some_0;
        lemma_concat_contains(seq![p], chain_in(caps, bound, p), a);
        lemma_concat_contains(seq![p], chain_in(caps, bound, p), b);
        if a == p && b != p {
            lemma_chain_member(caps, bound, p, b);
        } else if a != p && b == p {
            lemma_chain_member(caps, bound, p, a);
        } else if a != p && b != p {
            lemma_chain_depth_unique(caps, bound, p, a, b);
        }
    } else {
        assert(chain_in(caps, bound, q) == Seq::<CapsuleRef>::empty());
    }
}

/// An ancestor's ancestors are ancestors again.
proof fn lemma_chain_trans(
    caps: Seq<CapsuleSlot>,
    bound: int,
    q: CapsuleRef,
    a: CapsuleRef,
    b: CapsuleRef,
)
    requires
        tree_wf(caps, bound),
        live_in(caps, q),
        chain_in(caps, bound, q).contains(a),
        chain_in(caps, bound, a).contains(b),
    ensures
        chain_in(caps, bound, q).contains(b),
    decreases cap_at(caps, q.id as int).depth@,
{
    if cap_at(caps, q.id as int).parent_ref is Some {
        let p = cap_at(caps, q.id as int).parent_ref->Some_0;
        lemma_concat_contains(seq![p], chain_in(caps, bound, p), a);
        if a == p {
            lemma_concat_contains(seq![p], chain_in(caps, bound, p), b);
        } else {
            lemma_chain_member(caps, bound, q, a);
            lemma_chain_trans(caps, bound, p, a, b);
            lemma_concat_contains(seq![p], chain_in(caps, bound, p), b);
        }
    } else {
        assert(chain_in(caps, bound, q) == Seq::<CapsuleRef>::empty());
    }
}

/// Pushing onto a sequence keeps every member and adds the new one.
proof fn lemma_push_contains<A>(s: Seq<A>, x: A, y: A)
    ensures
        s.push(x).contains(y) <==> (s.contains(y) || y == x),
{
    assert(s.push(x)[s.len() as int] == x);
    if s.contains(y) {
        let w = choose|w: int| 0 <= w < s.len() && s[w] == y;
        assert(s.push(x)[w] == y);
    }
    if s.push(x).contains(y) && y != x {
        let w = choose|w: int| 0 <= w < s.push(x).len() && s.push(x)[w] == y;
        assert(s[w] == y);
    }
}

/// Whether a vector of handles holds `r`.
fn ref_vec_contains(v: &Vec<CapsuleRef>, r: CapsuleRef) -> (b: bool)
    ensures
        b == v@.contains(r),
{
    let mut i: usize = 0;
    while i < v.len()
        invariant
            i <= v@.len(),
            forall|k: int| 0 <= k < i ==> v@[k] != r,
        decreases v@.len() - i,
    {
        if v[i] == r {
            return true;
        }
        i += 1;
    }
    false
}

impl<D> Root<D> {
    /// Every internal table except the dirty set is the one of `other`.
    spec fn eq_but_dirties(&self, other: &Root<D>) -> bool {
        &&& self.capsules@ == other.capsules@
        &&& self.capsule_free_list@ == other.capsule_free_list@
        &&& self.spaces@ == other.spaces@
        &&& self.styles@ == other.styles@
        &&& self.allocator.slots() == other.allocator.slots()
        &&& self.allocator.free_list() == other.allocator.free_list()
        &&& self.allocator.wf() == other.allocator.wf()
        &&& self.depth_bound@ == other.depth_bound@
    }

    /// Drops every dirty entry equal to `r`.
    fn purge_dirty(&mut self, r: CapsuleRef)
        ensures
            final(self).eq_but_dirties(old(self)),
            forall|q: CapsuleRef| #[trigger] final(self).dirty(q) == (old(self).dirty(q) && q != r),
    {
        let mut kept: Vec<CapsuleRef> = Vec::new();
        let mut i: usize = 0;
        while i < self.dirties.len()
            invariant
                i <= self.dirties@.len(),
                self.eq_but_dirties(old(self)),
                self.dirties@ == old(self).dirties@,
                forall|k: int|
                    0 <= k < kept@.len() ==> (#[trigger] kept@[k]) != r && self.dirties@.contains(
                        kept@[k],
                    ),
                forall|j: int|
                    0 <= j < i && (#[trigger] self.dirties@[j]) != r ==> kept@.contains(
                        self.dirties@[j],
                    ),
            decreases self.dirties@.len() - i,
        {
            let e = self.dirties[i];
            if !(e == r) {
                let ghost pre = kept@;
                kept.push(e);
                proof {
                    assert forall|j: int|
                        0 <= j < i + 1 && (#[trigger] self.dirties@[j]) != r implies kept@.contains(
                        self.dirties@[j],
                    ) by {
                        if j < i {
                            let w = choose|w: int|
                                0 <= w < pre.len() && pre[w] == self.dirties@[j];
                            assert(kept@[w] == self.dirties@[j]);
                        } else {
                            assert(kept@[kept@.len() - 1] == e);
                        }
                    }
                }
            }
            i += 1;
        }
        self.dirties = kept;
        proof {
            assert forall|q: CapsuleRef| #[trigger] self.dirty(q) == (old(self).dirty(q) && q
                != r) by {
                if self.dirties@.contains(q) {
                    let w = choose|w: int| 0 <= w < self.dirties@.len() && self.dirties@[w] == q;
                    assert(old(self).dirties@.contains(self.dirties@[w]));
                }
                if old(self).dirties@.contains(q) && q != r {
                    let w = choose|w: int|
                        0 <= w < old(self).dirties@.len() && old(self).dirties@[w] == q;
                    assert(self.dirties@.contains(old(self).dirties@[w]));
                }
            }
        }
    }

    /// Marks the frame at `capsule_ref` as needing relayout, and walks the
    /// parent links marking every ancestor until it meets one already
    /// marked. Nothing else changes; marking a stale handle still records
    /// it, which makes the next `compute` run.
    pub(crate) fn set_dirty(&mut self, capsule_ref: CapsuleRef)
        requires
            old(self).wf(),
        ensures
            final(self).wf(),
            final(self).eq_but_dirties(old(self)),
            final(self).dirty(capsule_ref),
            forall|q: CapsuleRef| old(self).dirty(q) ==> #[trigger] final(self).dirty(q),
            forall|q: CapsuleRef|
                #[trigger] final(self).dirty(q) ==> old(self).dirty(q) || q == capsule_ref || old(
                    self,
                ).anc_chain(capsule_ref).contains(q),
    {
        if ref_vec_contains(&self.dirties, capsule_ref) {
            return;
        }
        let ghost pre = self.dirties@;
        self.dirties.push(capsule_ref);
        proof {
            assert forall|q: CapsuleRef| true implies #[trigger] self.dirties@.contains(q) == (
            pre.contains(q) || q == capsule_ref) by {
                lemma_push_contains(pre, capsule_ref, q);
            }
        }
        let mut current = capsule_ref;
        loop
            invariant
                self.eq_but_dirties(old(self)),
                old(self).wf(),
                self.dirties@.contains(capsule_ref),
                self.dirties@.contains(current),
                current == capsule_ref || old(self).anc_chain(capsule_ref).contains(current),
                forall|q: CapsuleRef| old(self).dirty(q) ==> #[trigger] self.dirties@.contains(q),
                forall|q: CapsuleRef|
                    #[trigger] self.dirties@.contains(q) ==> old(self).dirty(q) || q == capsule_ref
                        || old(self).anc_chain(capsule_ref).contains(q),
                forall|q: CapsuleRef|
                    #[trigger] self.dirties@.contains(q) && self.live(q) && self.parent_of(q)
                        is Some && q != current ==> self.dirties@.contains(
                        self.parent_of(q)->Some_0,
                    ),
            decreases (if self.live(current) {
                self.depth_of(current) + 1
            } else {
                0int
            }),
        {
            let cap = match self.get_capsule(current) {
                Some(c) => c,
                None => {
                    return ;
                },
            };
            let parent = cap.parent_ref;
            match parent {
                Some(p) => {
                    proof {
                        // the parent extends the ancestor chain of the
                        // starting frame
                        if current == capsule_ref {
                            assert(old(self).anc_chain(capsule_ref) == seq![p] + old(
                                self,
                            ).anc_chain(p));
                            assert((seq![p] + old(self).anc_chain(p))[0] == p);
                        } else {
                            old(self).lemma_anc_chain_closed(capsule_ref, current);
                        }
                        assert(old(self).anc_chain(capsule_ref).contains(p));
                    }
                    if ref_vec_contains(&self.dirties, p) {
                        return ;
                    }
                    let ghost pre = self.dirties@;
                    self.dirties.push(p);
                    proof {
                        assert forall|q: CapsuleRef| true implies #[trigger] self.dirties@.contains(
                            q,
                        ) == (pre.contains(q) || q == p) by {
                            lemma_push_contains(pre, p, q);
                        }
                    }
                    current = p;
                },
                None => {
                    return ;
                },
            }
        }
    }

    /// Creates a frame: geometry zeroed, style defaulted, attached under
    /// the given parent when that handle is live (top-level otherwise), and
    /// marked dirty together with its ancestors.
    #[verifier::rlimit(60)]
    #[verifier::spinoff_prover]
    fn internal_add_frame(&mut self, parent_ref: Option<CapsuleRef>, data: Option<DataRef>) -> (f:
        Frame)
        requires
            old(self).wf(),
        ensures
            final(self).wf(),
            add_frame_structural(old(self), final(self), f.spec_ref(), parent_ref, data),
            forall|q: CapsuleRef|
                #[trigger] final(self).dirty(q) == (old(self).dirty(q) && q != f.spec_ref()),
    {
        let parent_live: bool = match parent_ref {
            Some(p) => self.get_capsule(p).is_some(),
            None => false,
        };
        let eff_parent: Option<CapsuleRef> = if parent_live {
            parent_ref
        } else {
            None
        };
        let ghost new_depth: int = match eff_parent {
            Some(p) => self.cap_of(p).depth@ + 1,
            None => 0int,
        };

        let new_space_idx = self.spaces.len();
        self.spaces.push(Some(Space::zero()));
        let new_style_idx = self.styles.len();
        self.styles.push(Some(Style::default()));

        let caps_rec = Capsule {
            space_ref: new_space_idx,
            parent_ref: eff_parent,
            style_ref: new_style_idx,
            data_ref: data,
            children: Vec::new(),
            depth: Ghost(new_depth),
        };

        let ghost caps0 = self.capsules@;
        let new_id: usize;
        let new_generation: u32;
        let popped = self.capsule_free_list.pop_front();
        match popped {
            Some(rid) => {
                let slot = &mut self.capsules[rid];
                slot.capsule = Some(caps_rec);
                new_generation = slot.generation;
                new_id = rid;
            },
            None => {
                new_id = self.capsules.len();
                self.capsules.push(CapsuleSlot { capsule: Some(caps_rec), generation: 0 });
                new_generation = 0;
            },
        }
        let new_ref = CapsuleRef { id: new_id, generation: new_generation };
        let ghost nb: int = if new_depth + 1 > old(self).depth_bound@ {
            new_depth + 1
        } else {
            old(self).depth_bound@
        };
        self.depth_bound = Ghost(nb);

        if parent_live {
            let p = match parent_ref {
                Some(p) => p,
                None => {
                    proof {
                        assert(false);
                    }
                    new_ref
                },
            };
            let slot = &mut self.capsules[p.id];
            match &mut slot.capsule {
                Some(c) => {
                    c.children.push(new_ref);
                },
                None => {
                    proof {
                        assert(false);
                    }
                },
            }
        }

        // a stale handle equal to the fresh one may linger in the dirty
        // set; drop it so the upward marking below starts clean
        self.purge_dirty(new_ref);

        proof {
            let caps1 = self.capsules@;
            let opre = old(self);
            assert forall|q: CapsuleRef| q != new_ref implies live_in(caps1, q) == live_in(
                caps0,
                q,
            ) by {}
            assert(!live_in(caps0, new_ref));
            assert(live_in(caps1, new_ref));
            assert(tree_wf(caps1, nb)) by {
                assert forall|i: int, k: int|
                    occ(caps1, i) && 0 <= k < cap_at(caps1, i).children@.len() implies {
                    let ch = #[trigger] cap_at(caps1, i).children@[k];
                    live_in(caps1, ch) && cap_at(caps1, ch.id as int).parent_ref == Some(
                        ref_at(caps1, i),
                    )
                } by {
                    let ch = cap_at(caps1, i).children@[k];
                    if i == new_id as int {
                        // the new frame has no children
                        assert(false);
                    } else if parent_live && i == parent_ref->Some_0.id as int && k == cap_at(
                        caps1,
                        i,
                    ).children@.len() - 1 {
                        // the appended child is the new frame
                        assert(ch == new_ref);
                    } else {
                        assert(occ(caps0, i));
                        assert(cap_at(caps0, i).children@[k] == ch);
                    }
                }
                assert forall|i: int, k1: int, k2: int|
                    occ(caps1, i) && 0 <= k1 < k2 < cap_at(caps1, i).children@.len() implies (
                #[trigger] cap_at(caps1, i).children@[k1]).id != (#[trigger] cap_at(
                    caps1,
                    i,
                ).children@[k2]).id by {
                    if i != new_id as int {
                        if parent_live && i == parent_ref->Some_0.id as int && k2 == cap_at(
                            caps1,
                            i,
                        ).children@.len() - 1 {
                            let ch1 = cap_at(caps0, i).children@[k1];
                            assert(live_in(caps0, ch1));
                        }
                    }
                }
                assert forall|i: int|
                    occ(caps1, i) && (#[trigger] cap_at(caps1, i).parent_ref) is Some implies {
                    let p = cap_at(caps1, i).parent_ref->Some_0;
                    &&& live_in(caps1, p)
                    &&& cap_at(caps1, p.id as int).children@.contains(ref_at(caps1, i))
                    &&& cap_at(caps1, i).depth@ == cap_at(caps1, p.id as int).depth@ + 1
                } by {
                    let p = cap_at(caps1, i).parent_ref->Some_0;
                    if i == new_id as int {
                        assert(parent_live && p == parent_ref->Some_0);
                        let pc = cap_at(caps1, p.id as int).children@;
                        assert(pc[pc.len() - 1] == ref_at(caps1, new_id as int));
                    } else {
                        assert(occ(caps0, i));
                        assert(cap_at(caps0, i).parent_ref == cap_at(caps1, i).parent_ref);
                        if parent_live && p.id as int == parent_ref->Some_0.id as int {
                            lemma_push_contains(
                                cap_at(caps0, p.id as int).children@,
                                new_ref,
                                ref_at(caps1, i),
                            );
                        }
                    }
                }
                assert forall|i: int|
                    occ(caps1, i) implies 0 <= (#[trigger] cap_at(caps1, i).depth@) < nb by {
                    if i != new_id as int {
                        assert(occ(caps0, i));
                        assert(cap_at(caps1, i).depth@ == cap_at(caps0, i).depth@);
                    }
                }
            }
            assert forall|i: int|
                occ(caps1, i) implies {
                let c = #[trigger] cap_at(caps1, i);
                &&& 1 <= c.space_ref < self.spaces@.len()
                &&& self.spaces@[c.space_ref as int] is Some
                &&& c.style_ref < self.styles@.len()
                &&& self.styles@[c.style_ref as int] is Some
            } by {
                if i != new_id as int {
                    assert(occ(caps0, i));
                    assert(cap_at(caps1, i).space_ref == cap_at(caps0, i).space_ref);
                    assert(cap_at(caps1, i).style_ref == cap_at(caps0, i).style_ref);
                }
            }
            assert forall|i: int, j: int|
                occ(caps1, i) && occ(caps1, j) && i != j implies (#[trigger] cap_at(
                caps1,
                i,
            )).space_ref != (#[trigger] cap_at(caps1, j)).space_ref && cap_at(caps1, i).style_ref
                != cap_at(caps1, j).style_ref by {
                if i != new_id as int && j != new_id as int {
                    assert(occ(caps0, i) && occ(caps0, j));
                    assert(cap_at(caps1, i).space_ref == cap_at(caps0, i).space_ref);
                    assert(cap_at(caps1, j).space_ref == cap_at(caps0, j).space_ref);
                    assert(cap_at(caps1, i).style_ref == cap_at(caps0, i).style_ref);
                    assert(cap_at(caps1, j).style_ref == cap_at(caps0, j).style_ref);
                } else if i == new_id as int {
                    assert(occ(caps0, j));
                    assert(cap_at(caps1, j).space_ref == cap_at(caps0, j).space_ref
                        && cap_at(caps1, j).space_ref < new_space_idx);
                    assert(cap_at(caps1, j).style_ref == cap_at(caps0, j).style_ref
                        && cap_at(caps1, j).style_ref < new_style_idx);
                } else {
                    assert(occ(caps0, i));
                    assert(cap_at(caps1, i).space_ref == cap_at(caps0, i).space_ref
                        && cap_at(caps1, i).space_ref < new_space_idx);
                    assert(cap_at(caps1, i).style_ref == cap_at(caps0, i).style_ref
                        && cap_at(caps1, i).style_ref < new_style_idx);
                }
            }
            assert forall|q: CapsuleRef|
                #[trigger] self.dirties@.contains(q) && live_in(caps1, q) && cap_at(
                    caps1,
                    q.id as int,
                ).parent_ref is Some implies self.dirties@.contains(
                cap_at(caps1, q.id as int).parent_ref->Some_0,
            ) by {
                assert(self.dirty(q));
                assert(q != new_ref);
                assert(live_in(caps0, q));
                assert(cap_at(caps1, q.id as int).parent_ref == cap_at(caps0, q.id as int).parent_ref);
                let pq = cap_at(caps0, q.id as int).parent_ref->Some_0;
                assert(self.dirty(q));
                assert(opre.dirty(q));
                assert(opre.dirties@.contains(q));
                assert(opre.dirties@.contains(pq));
                assert(live_in(caps0, pq));
                assert(pq != new_ref);
                assert(opre.dirty(pq));
                assert(self.dirty(pq));
            }
            assert(self.wf());
        }

        Frame { capsule_ref: new_ref }
    }

    /// Creates a frame attached under `to`, carrying `data` as its bound
    /// payload. When `to` is stale the frame is created top-level instead.
    pub fn add_frame_child(&mut self, to: &Frame, data: Option<DataRef>) -> (f: Frame)
        requires
            old(self).wf(),
        ensures
            final(self).wf(),
            add_frame_post(old(self), final(self), f.spec_ref(), Some(to.spec_ref()), data),
    {
        let f = self.internal_add_frame(Some(to.get_ref()), data);
        let ghost mid = *self;
        self.set_dirty(f.get_ref());
        proof {
            lemma_same_obs(&mid, self);
        }
        f
    }

    /// Creates a top-level frame carrying `data` as its bound payload.
    pub fn add_frame(&mut self, data: Option<DataRef>) -> (f: Frame)
        requires
            old(self).wf(),
        ensures
            final(self).wf(),
            add_frame_post(old(self), final(self), f.spec_ref(), None, data),
    {
        let f = self.internal_add_frame(None, data);
        let ghost mid = *self;
        self.set_dirty(f.get_ref());
        proof {
            lemma_same_obs(&mid, self);
        }
        f
    }
}

/// The generation a slot carries after one removal: the old one plus one,
/// wrapping at the top of `u32`.
pub open spec fn wrap_inc(g: int) -> int {
    if g == 0xFFFF_FFFFint {
        0int
    } else {
        g + 1
    }
}

/// Every frame in `s` has all of its children earlier in `s`.
spec fn post_order_closed(caps: Seq<CapsuleSlot>, s: Seq<CapsuleRef>) -> bool {
    forall|j: int, c: CapsuleRef|
        0 <= j < s.len() && #[trigger] cap_at(caps, s[j].id as int).children@.contains(c)
            ==> exists|i: int| 0 <= i < j && s[i] == c
}

/// Every frame in `s` except the last has a parent, and that parent sits
/// later in `s`.
spec fn parents_follow(caps: Seq<CapsuleSlot>, s: Seq<CapsuleRef>) -> bool {
    forall|j: int|
        0 <= j < s.len() - 1 ==> (#[trigger] cap_at(caps, s[j].id as int).parent_ref) is Some
            && exists|i: int|
            j < i < s.len() && s[i] == cap_at(caps, s[j].id as int).parent_ref->Some_0
}

/// Pulls one instance out of `parents_follow`.
proof fn lemma_parents_follow_take(caps: Seq<CapsuleSlot>, s: Seq<CapsuleRef>, j: int)
    requires
        parents_follow(caps, s),
        0 <= j < s.len() - 1,
    ensures
        cap_at(caps, s[j].id as int).parent_ref is Some,
        exists|i: int| j < i < s.len() && s[i] == cap_at(caps, s[j].id as int).parent_ref->Some_0,
{
}

/// Pulls one instance out of `post_order_closed`: the child `c` of the
/// frame at position `j` appears at some earlier position.
proof fn lemma_post_order_take(caps: Seq<CapsuleSlot>, s: Seq<CapsuleRef>, j: int, c: CapsuleRef)
    requires
        post_order_closed(caps, s),
        0 <= j < s.len(),
        cap_at(caps, s[j].id as int).children@.contains(c),
    ensures
        exists|i: int| 0 <= i < j && s[i] == c,
{
}

/// The subtree under `r` in depth-first post-order: every frame's
/// children land before the frame itself, and `r` lands last. Every
/// returned handle is live and sits at least as deep as `r`.
fn collect_subtree(capsules: &Vec<CapsuleSlot>, r: CapsuleRef, Ghost(bound): Ghost<int>) -> (out:
    Vec<CapsuleRef>)
    requires
        tree_wf(capsules@, bound),
        live_in(capsules@, r),
    ensures
        out@.len() > 0,
        out@[out@.len() - 1] == r,
        forall|j: int|
            0 <= j < out@.len() ==> live_in(capsules@, #[trigger] out@[j]) && cap_at(
                capsules@,
                out@[j].id as int,
            ).depth@ >= cap_at(capsules@, r.id as int).depth@,
        post_order_closed(capsules@, out@),
        parents_follow(capsules@, out@),
        forall|j1: int, j2: int| 0 <= j1 < j2 < out@.len() ==> out@[j1] != out@[j2],
        forall|j: int|
            0 <= j < out@.len() ==> out@[j] == r || chain_in(capsules@, bound, #[trigger] out@[j]).contains(r),
    decreases bound - cap_at(capsules@, r.id as int).depth@,
{
    proof {
        assert(ref_at(capsules@, r.id as int) == r);
    }
    let n_children = match &capsules[r.id].capsule {
        Some(c) => c.children.len(),
        None => {
            proof {
                assert(false);
            }
            0
        },
    };
    let mut out: Vec<CapsuleRef> = Vec::new();
    let mut k: usize = 0;
    while k < n_children
        invariant
            tree_wf(capsules@, bound),
            live_in(capsules@, r),
            n_children == cap_at(capsules@, r.id as int).children@.len(),
            k <= n_children,
            forall|j: int|
                0 <= j < out@.len() ==> live_in(capsules@, #[trigger] out@[j]) && cap_at(
                    capsules@,
                    out@[j].id as int,
                ).depth@ > cap_at(capsules@, r.id as int).depth@,
            post_order_closed(capsules@, out@),
            forall|j: int|
                0 <= j < out@.len() ==> (#[trigger] cap_at(
                    capsules@,
                    out@[j].id as int,
                ).parent_ref) is Some && ((exists|i: int|
                    j < i < out@.len() && out@[i] == cap_at(
                        capsules@,
                        out@[j].id as int,
                    ).parent_ref->Some_0) || cap_at(capsules@, out@[j].id as int).parent_ref
                    == Some(ref_at(capsules@, r.id as int))),
            forall|m: int|
                #![trigger cap_at(capsules@, r.id as int).children@[m]]
                0 <= m < k ==> exists|i: int|
                    0 <= i < out@.len() && out@[i] == cap_at(
                        capsules@,
                        r.id as int,
                    ).children@[m],
            forall|j1: int, j2: int| 0 <= j1 < j2 < out@.len() ==> out@[j1] != out@[j2],
            forall|j: int|
                0 <= j < out@.len() ==> chain_in(capsules@, bound, #[trigger] out@[j]).contains(r),
            forall|j: int|
                0 <= j < out@.len() ==> exists|m: int|
                    0 <= m < k && (#[trigger] out@[j] == cap_at(capsules@, r.id as int).children@[m]
                        || chain_in(capsules@, bound, out@[j]).contains(
                        cap_at(capsules@, r.id as int).children@[m],
                    )),
        decreases n_children - k,
    {
        let ch: CapsuleRef = match &capsules[r.id].capsule {
            Some(c) => c.children[k],
            None => {
                proof {
                    assert(false);
                }
                r
            },
        };
        proof {
            assert(cap_at(capsules@, r.id as int).children@[k as int] == ch);
            assert(cap_at(capsules@, ch.id as int).parent_ref == Some(
                ref_at(capsules@, r.id as int),
            ));
            assert(cap_at(capsules@, ch.id as int).depth@ == cap_at(
                capsules@,
                r.id as int,
            ).depth@ + 1);
        }
        let ghost pre_seq = out@;
        let mut sub = collect_subtree(capsules, ch, Ghost(bound));
        let ghost sub_seq = sub@;
        out.append(&mut sub);
        proof {
            let b2 = pre_seq.len() as int;
            assert(out@ == pre_seq + sub_seq);
            assert forall|i: int| 0 <= i < b2 implies #[trigger] out@[i] == pre_seq[i] by {}
            assert forall|i: int|
                b2 <= i < out@.len() implies #[trigger] out@[i] == sub_seq[i - b2] by {}
            assert forall|j: int, c: CapsuleRef|
                0 <= j < out@.len() && #[trigger] cap_at(
                    capsules@,
                    out@[j].id as int,
                ).children@.contains(c) implies exists|i: int| 0 <= i < j && out@[i] == c by {
                if j < b2 {
                    assert(cap_at(capsules@, pre_seq[j].id as int).children@.contains(c));
                    lemma_post_order_take(capsules@, pre_seq, j, c);
                    let i = choose|i: int| 0 <= i < j && pre_seq[i] == c;
                    assert(out@[i] == c);
                } else {
                    assert(cap_at(capsules@, sub_seq[j - b2].id as int).children@.contains(c));
                    lemma_post_order_take(capsules@, sub_seq, j - b2, c);
                    let i = choose|i: int| 0 <= i < j - b2 && sub_seq[i] == c;
                    assert(out@[b2 + i] == c);
                    assert(0 <= b2 + i < j);
                }
            }
            assert(post_order_closed(capsules@, out@));
            assert forall|j: int|
                0 <= j < out@.len() implies (#[trigger] cap_at(
                capsules@,
                out@[j].id as int,
            ).parent_ref) is Some && ((exists|i: int|
                j < i < out@.len() && out@[i] == cap_at(
                    capsules@,
                    out@[j].id as int,
                ).parent_ref->Some_0) || cap_at(capsules@, out@[j].id as int).parent_ref == Some(
                ref_at(capsules@, r.id as int),
            )) by {
                if j < b2 {
                    assert(cap_at(capsules@, pre_seq[j].id as int).parent_ref is Some);
                    if exists|i: int|
                        j < i < pre_seq.len() && pre_seq[i] == cap_at(
                            capsules@,
                            pre_seq[j].id as int,
                        ).parent_ref->Some_0 {
                        let i = choose|i: int|
                            j < i < pre_seq.len() && pre_seq[i] == cap_at(
                                capsules@,
                                pre_seq[j].id as int,
                            ).parent_ref->Some_0;
                        assert(out@[i] == cap_at(
                            capsules@,
                            out@[j].id as int,
                        ).parent_ref->Some_0);
                    }
                } else if j < out@.len() - 1 {
                    lemma_parents_follow_take(capsules@, sub_seq, j - b2);
                    let i = choose|i: int|
                        j - b2 < i < sub_seq.len() && #[trigger] sub_seq[i] == cap_at(
                            capsules@,
                            sub_seq[j - b2].id as int,
                        ).parent_ref->Some_0;
                    assert(out@[b2 + i] == cap_at(
                        capsules@,
                        out@[j].id as int,
                    ).parent_ref->Some_0);
                    assert(j < b2 + i < out@.len());
                } else {
                    // the last appended entry is the child itself, whose
                    // parent is this frame
                    assert(out@[j] == ch);
                }
            }
            assert forall|m: int|
                #![trigger cap_at(capsules@, r.id as int).children@[m]]
                0 <= m < k + 1 implies exists|i: int|
                    0 <= i < out@.len() && out@[i] == cap_at(
                        capsules@,
                        r.id as int,
                    ).children@[m] by {
                if m < k {
                    let i = choose|i: int|
                        0 <= i < pre_seq.len() && pre_seq[i] == cap_at(
                            capsules@,
                            r.id as int,
                        ).children@[m];
                    assert(out@[i] == cap_at(capsules@, r.id as int).children@[m]);
                } else {
                    assert(sub_seq[sub_seq.len() - 1] == ch);
                    assert(out@[b2 + sub_seq.len() - 1] == ch);
                }
            }
            // every appended entry lies under this child, hence under this
            // frame, and meets nothing collected under the earlier children
            assert(chain_in(capsules@, bound, ch) == seq![r] + chain_in(capsules@, bound, r));
            assert((seq![r] + chain_in(capsules@, bound, r))[0] == r);
            assert(chain_in(capsules@, bound, ch).contains(r));
            assert forall|j: int|
                0 <= j < out@.len() implies chain_in(
                capsules@,
                bound,
                #[trigger] out@[j],
            ).contains(r) by {
                if j < b2 {
                    assert(out@[j] == pre_seq[j]);
                } else {
                    let e = sub_seq[j - b2];
                    assert(out@[j] == e);
                    if e != ch {
                        assert(chain_in(capsules@, bound, e).contains(ch));
                        lemma_chain_trans(capsules@, bound, e, ch, r);
                    }
                }
            }
            assert forall|j: int|
                0 <= j < out@.len() implies exists|m: int|
                    0 <= m < k + 1 && (#[trigger] out@[j] == cap_at(
                        capsules@,
                        r.id as int,
                    ).children@[m] || chain_in(capsules@, bound, out@[j]).contains(
                        cap_at(capsules@, r.id as int).children@[m],
                    )) by {
                if j < b2 {
                    assert(out@[j] == pre_seq[j]);
                    let m = choose|m: int|
                        0 <= m < k && (pre_seq[j] == cap_at(capsules@, r.id as int).children@[m]
                            || chain_in(capsules@, bound, pre_seq[j]).contains(
                            cap_at(capsules@, r.id as int).children@[m],
                        ));
                    assert(0 <= m < k + 1 && (out@[j] == cap_at(capsules@, r.id as int).children@[m]
                        || chain_in(capsules@, bound, out@[j]).contains(
                        cap_at(capsules@, r.id as int).children@[m],
                    )));
                } else {
                    assert(out@[j] == sub_seq[j - b2]);
                    assert(cap_at(capsules@, r.id as int).children@[k as int] == ch);
                    assert(out@[j] == ch || chain_in(capsules@, bound, out@[j]).contains(ch));
                }
            }
            assert forall|j1: int, j2: int|
                0 <= j1 < j2 < out@.len() implies out@[j1] != out@[j2] by {
                if j2 < b2 {
                    assert(out@[j1] == pre_seq[j1] && out@[j2] == pre_seq[j2]);
                } else if j1 >= b2 {
                    assert(out@[j1] == sub_seq[j1 - b2] && out@[j2] == sub_seq[j2 - b2]);
                } else {
                    let e = pre_seq[j1];
                    let e2 = sub_seq[j2 - b2];
                    assert(out@[j1] == e && out@[j2] == e2);
                    if e == e2 {
                        let m = choose|m: int|
                            0 <= m < k && (e == cap_at(capsules@, r.id as int).children@[m]
                                || chain_in(capsules@, bound, e).contains(
                                cap_at(capsules@, r.id as int).children@[m],
                            ));
                        let cm = cap_at(capsules@, r.id as int).children@[m];
                        assert(cm.id != ch.id);
                        assert(live_in(capsules@, cm) && live_in(capsules@, ch));
                        assert(cap_at(capsules@, cm.id as int).parent_ref == Some(
                            ref_at(capsules@, r.id as int),
                        ));
                        assert(cap_at(capsules@, cm.id as int).depth@ == cap_at(
                            capsules@,
                            r.id as int,
                        ).depth@ + 1);
                        assert(cap_at(capsules@, ch.id as int).depth@ == cap_at(
                            capsules@,
                            r.id as int,
                        ).depth@ + 1);
                        assert(live_in(capsules@, e));
                        if e == cm {
                            if e2 != ch {
                                lemma_chain_member(capsules@, bound, e2, ch);
                            }
                            assert(false);
                        } else {
                            lemma_chain_member(capsules@, bound, e, cm);
                            if e2 == ch {
                                assert(false);
                            } else {
                                lemma_chain_depth_unique(capsules@, bound, e, cm, ch);
                                assert(false);
                            }
                        }
                    }
                }
            }
        }
        k += 1;
    }
    let ghost lout = out@;
    out.push(r);
    proof {
        assert forall|i: int| 0 <= i < lout.len() implies #[trigger] out@[i] == lout[i] by {}
        assert forall|j: int|
            0 <= j < out@.len() implies live_in(capsules@, #[trigger] out@[j]) && cap_at(
                capsules@,
                out@[j].id as int,
            ).depth@ >= cap_at(capsules@, r.id as int).depth@ by {
            if j < out@.len() - 1 {
                assert(out@[j] == lout[j]);
                assert(live_in(capsules@, lout[j]) && cap_at(
                    capsules@,
                    lout[j].id as int,
                ).depth@ > cap_at(capsules@, r.id as int).depth@);
            } else {
                assert(out@[j] == r);
            }
        }
        assert forall|j: int, c: CapsuleRef|
            0 <= j < out@.len() && #[trigger] cap_at(
                capsules@,
                out@[j].id as int,
            ).children@.contains(c) implies exists|i: int| 0 <= i < j && out@[i] == c by {
            if j < out@.len() - 1 {
                assert(cap_at(capsules@, lout[j].id as int).children@.contains(c));
                lemma_post_order_take(capsules@, lout, j, c);
                let i = choose|i: int| 0 <= i < j && lout[i] == c;
                assert(out@[i] == c);
            } else {
                assert(out@[j] == r);
                let w = choose|w: int|
                    0 <= w < cap_at(capsules@, r.id as int).children@.len() && cap_at(
                        capsules@,
                        r.id as int,
                    ).children@[w] == c;
                assert(cap_at(capsules@, r.id as int).children@[w] == c);
                let i = choose|i: int|
                    0 <= i < lout.len() && lout[i] == cap_at(
                        capsules@,
                        r.id as int,
                    ).children@[w];
                assert(out@[i] == c);
            }
        }
        assert(post_order_closed(capsules@, out@));
        assert forall|j: int|
            0 <= j < out@.len() - 1 implies (#[trigger] cap_at(
            capsules@,
            out@[j].id as int,
        ).parent_ref) is Some && exists|i: int|
            j < i < out@.len() && out@[i] == cap_at(
                capsules@,
                out@[j].id as int,
            ).parent_ref->Some_0 by {
            assert(out@[j] == lout[j]);
            if exists|i: int|
                j < i < lout.len() && lout[i] == cap_at(
                    capsules@,
                    lout[j].id as int,
                ).parent_ref->Some_0 {
                let i = choose|i: int|
                    j < i < lout.len() && lout[i] == cap_at(
                        capsules@,
                        lout[j].id as int,
                    ).parent_ref->Some_0;
                assert(out@[i] == cap_at(capsules@, out@[j].id as int).parent_ref->Some_0);
            } else {
                assert(cap_at(capsules@, lout[j].id as int).parent_ref == Some(
                    ref_at(capsules@, r.id as int),
                ));
                assert(out@[out@.len() - 1] == r);
                assert(r == ref_at(capsules@, r.id as int));
            }
        }
        assert(parents_follow(capsules@, out@));
        assert forall|j1: int, j2: int|
            0 <= j1 < j2 < out@.len() implies out@[j1] != out@[j2] by {
            if j2 == out@.len() - 1 {
                assert(out@[j1] == lout[j1]);
                assert(cap_at(capsules@, lout[j1].id as int).depth@ > cap_at(
                    capsules@,
                    r.id as int,
                ).depth@);
            } else {
                assert(out@[j1] == lout[j1] && out@[j2] == lout[j2]);
            }
        }
        assert forall|j: int|
            0 <= j < out@.len() implies out@[j] == r || chain_in(
            capsules@,
            bound,
            #[trigger] out@[j],
        ).contains(r) by {
            if j < out@.len() - 1 {
                assert(out@[j] == lout[j]);
            }
        }
    }
    out
}

/// Like `post_order_closed`, but only over the window of `rem` from `k`
/// on, against the current slots: a live listed frame's children are all
/// listed later than `k` and earlier than the frame.
spec fn window_closed(caps: Seq<CapsuleSlot>, rem: Seq<CapsuleRef>, k: int) -> bool {
    forall|j: int, c: CapsuleRef|
        k <= j < rem.len() && live_in(caps, rem[j]) && #[trigger] cap_at(
            caps,
            rem[j].id as int,
        ).children@.contains(c) ==> exists|i: int| k <= i < j && rem[i] == c
}

/// Pulls one instance out of `window_closed`.
proof fn lemma_window_take(
    caps: Seq<CapsuleSlot>,
    rem: Seq<CapsuleRef>,
    k: int,
    j: int,
    c: CapsuleRef,
)
    requires
        window_closed(caps, rem, k),
        k <= j < rem.len(),
        live_in(caps, rem[j]),
        cap_at(caps, rem[j].id as int).children@.contains(c),
    ensures
        exists|i: int| k <= i < j && rem[i] == c,
{
}

/// `s` with every occurrence of `r` dropped, order kept.
pub open spec fn seq_without(s: Seq<CapsuleRef>, r: CapsuleRef) -> Seq<CapsuleRef>
    decreases s.len(),
{
    if s.len() == 0 {
        Seq::empty()
    } else if s.last() == r {
        seq_without(s.drop_last(), r)
    } else {
        seq_without(s.drop_last(), r).push(s.last())
    }
}

/// The children of `src` with every occurrence of `r` dropped, in order.
fn children_without(src: &Vec<CapsuleRef>, r: CapsuleRef) -> (out: Vec<CapsuleRef>)
    ensures
        out@ == seq_without(src@, r),
        forall|k: int|
            0 <= k < out@.len() ==> (#[trigger] out@[k]) != r && src@.contains(out@[k]),
        forall|c: CapsuleRef| #[trigger] out@.contains(c) == (src@.contains(c) && c != r),
        (forall|k1: int, k2: int|
            0 <= k1 < k2 < src@.len() ==> (#[trigger] src@[k1]).id != (#[trigger] src@[k2]).id)
            ==> (forall|k1: int, k2: int|
            0 <= k1 < k2 < out@.len() ==> (#[trigger] out@[k1]).id != (#[trigger] out@[k2]).id),
{
    let mut out: Vec<CapsuleRef> = Vec::new();
    let mut i: usize = 0;
    while i < src.len()
        invariant
            i <= src@.len(),
            out@ == seq_without(src@.subrange(0, i as int), r),
            forall|k: int|
                0 <= k < out@.len() ==> (#[trigger] out@[k]) != r && src@.contains(out@[k]),
            forall|k: int|
                0 <= k < out@.len() ==> exists|w: int| 0 <= w < i && src@[w] == #[trigger] out@[k],
            forall|j: int|
                0 <= j < i && (#[trigger] src@[j]) != r ==> out@.contains(src@[j]),
            (forall|k1: int, k2: int|
                0 <= k1 < k2 < src@.len() ==> (#[trigger] src@[k1]).id != (
                #[trigger] src@[k2]).id) ==> (forall|k1: int, k2: int|
                0 <= k1 < k2 < out@.len() ==> (#[trigger] out@[k1]).id != (
                #[trigger] out@[k2]).id),
        decreases src@.len() - i,
    {
        let e = src[i];
        if !(e == r) {
            let ghost pre = out@;
            out.push(e);
            proof {
                assert(src@.contains(src@[i as int]));
                assert forall|k: int|
                    0 <= k < out@.len() implies exists|w: int|
                        0 <= w < i + 1 && src@[w] == #[trigger] out@[k] by {
                    if k < pre.len() {
                        assert(out@[k] == pre[k]);
                        let w = choose|w: int| 0 <= w < i && src@[w] == pre[k];
                        assert(src@[w] == out@[k]);
                    } else {
                        assert(src@[i as int] == out@[k]);
                    }
                }
                assert forall|j: int|
                    0 <= j < i + 1 && (#[trigger] src@[j]) != r implies out@.contains(
                    src@[j],
                ) by {
                    if j < i {
                        let w = choose|w: int| 0 <= w < pre.len() && pre[w] == src@[j];
                        assert(out@[w] == src@[j]);
                    } else {
                        assert(out@[out@.len() - 1] == src@[j]);
                    }
                }
                if forall|k1: int, k2: int|
                    0 <= k1 < k2 < src@.len() ==> (#[trigger] src@[k1]).id != (
                #[trigger] src@[k2]).id {
                    assert forall|k1: int, k2: int|
                        0 <= k1 < k2 < out@.len() implies (#[trigger] out@[k1]).id != (
                    #[trigger] out@[k2]).id by {
                        if k2 == out@.len() - 1 {
                            let w = choose|w: int| 0 <= w < i && src@[w] == pre[k1];
                            assert(src@[w].id != src@[i as int].id);
                        } else {
                            assert(pre[k1].id != pre[k2].id);
                        }
                    }
                }
            }
        } else {
            proof {
                assert forall|j: int|
                    0 <= j < i + 1 && (#[trigger] src@[j]) != r implies out@.contains(
                    src@[j],
                ) by {}
            }
        }
        proof {
            let sub1 = src@.subrange(0, i + 1);
            assert(sub1.drop_last() == src@.subrange(0, i as int));
            assert(sub1.last() == src@[i as int]);
        }
        i += 1;
    }
    proof {
        assert(src@.subrange(0, src@.len() as int) == src@);
        assert forall|c: CapsuleRef| #[trigger] out@.contains(c) == (src@.contains(c) && c
            != r) by {
            if out@.contains(c) {
                let k = choose|k: int| 0 <= k < out@.len() && out@[k] == c;
                assert(out@[k] != r && src@.contains(out@[k]));
            }
            if src@.contains(c) && c != r {
                let j = choose|j: int| 0 <= j < src@.len() && src@[j] == c;
                assert(out@.contains(src@[j]));
            }
        }
    }
    out
}

impl<D> Root<D> {
    /// Removes one childless live frame: releases its payload, detaches it
    /// from its parent (marking the parent dirty), frees its geometry and
    /// style slots, empties its slot with the generation advanced, and
    /// recycles the slot index.
    #[verifier::rlimit(60)]
    #[verifier::spinoff_prover]
    fn remove_single(&mut self, r: CapsuleRef)
        requires
            old(self).wf(),
            old(self).live(r),
            old(self).children_of(r).len() == 0,
        ensures
            final(self).wf(),
            final(self).n_slots() == old(self).n_slots(),
            forall|q: CapsuleRef| #[trigger] final(self).live(q) == (old(self).live(q) && q != r),
            final(self).gen_of(r.spec_id()) == wrap_inc(r.spec_generation()),
            forall|i: int|
                0 <= i < old(self).n_slots() && i != r.spec_id() ==> final(self).gen_of(i) == old(
                    self,
                ).gen_of(i),
            forall|q: CapsuleRef|
                old(self).live(q) && q != r ==> #[trigger] final(self).space_of(q) == old(
                    self,
                ).space_of(q) && final(self).style_of(q) == old(self).style_of(q)
                    && final(self).data_of(q) == old(self).data_of(q) && final(self).parent_of(q)
                    == old(self).parent_of(q),
            forall|q: CapsuleRef|
                old(self).live(q) && q != r ==> #[trigger] final(self).children_of(q) == (if old(
                    self,
                ).parent_of(r) == Some(q) {
                    seq_without(old(self).children_of(q), r)
                } else {
                    old(self).children_of(q)
                }),
            final(self).canvas() == old(self).canvas(),
            final(self).free_ids() == old(self).free_ids().push(r.id),
            forall|j: int|
                0 <= j < final(self).bindings().len() ==> final(self).bindings()[j] == old(
                    self,
                ).bindings()[j] || final(self).bindings()[j] is None,
            final(self).bindings().len() == old(self).bindings().len(),
            !final(self).dirty(r),
            forall|q: CapsuleRef| old(self).dirty(q) && q != r ==> #[trigger] final(self).dirty(q),
            forall|q: CapsuleRef|
                #[trigger] final(self).dirty(q) ==> old(self).dirty(q) || final(self).live(q),
            old(self).parent_of(r) is Some ==> final(self).dirty(old(self).parent_of(r)->Some_0),
    {
        let n_slots_now = self.capsules.len();
        self.unbind_data(r);
        let (space_ref, style_ref, parent_opt) = match self.get_capsule(r) {
            Some(c) => (c.space_ref, c.style_ref, c.parent_ref),
            None => {
                proof {
                    assert(false);
                }
                (0, 0, None)
            },
        };
        let ghost mid0 = *self;
        proof {
            assert(mid0.parent_of(r) == old(self).parent_of(r));
            assert(mid0.children_of(r) == old(self).children_of(r));
            assert(mid0.capsules@.len() <= usize::MAX);
        }

        // detach from the parent's children list
        let ghost filtered_seq = Seq::<CapsuleRef>::empty();
        if let Some(p) = parent_opt {
            let filtered = match &self.capsules[p.id].capsule {
                Some(c) => children_without(&c.children, r),
                None => {
                    proof {
                        assert(false);
                    }
                    Vec::new()
                },
            };
            proof {
                filtered_seq = filtered@;
            }
            let slot = &mut self.capsules[p.id];
            match &mut slot.capsule {
                Some(c) => {
                    c.children = filtered;
                },
                None => {
                    proof {
                        assert(false);
                    }
                },
            }
        }

        // free the geometry and style slots
        let sl = &mut self.spaces[space_ref];
        *sl = None;
        let st = &mut self.styles[style_ref];
        *st = None;

        // empty the slot and advance its generation so old handles stay
        // invalid even after the slot is recycled
        let slot = &mut self.capsules[r.id];
        slot.capsule = None;
        slot.generation = if slot.generation == u32::MAX {
            0
        } else {
            slot.generation + 1
        };
        self.capsule_free_list.push_back(r.id);
        self.purge_dirty(r);

        proof {
            if parent_opt is Some {
                let p = parent_opt->Some_0;
                assert(mid0.children_of(p) == cap_at(mid0.capsules@, p.id as int).children@);
                assert forall|k1: int, k2: int|
                    0 <= k1 < k2 < mid0.children_of(p).len() implies (
                #[trigger] mid0.children_of(p)[k1]).id != (#[trigger] mid0.children_of(
                    p,
                )[k2]).id by {
                    assert(cap_at(mid0.capsules@, p.id as int).children@[k1]
                        == mid0.children_of(p)[k1]);
                    assert(cap_at(mid0.capsules@, p.id as int).children@[k2]
                        == mid0.children_of(p)[k2]);
                }
            }
            lemma_removal_shape(&mid0, self, r, parent_opt, filtered_seq, space_ref, style_ref);
        }

        if let Some(p) = parent_opt {
            let ghost mid = *self;
            self.set_dirty(p);
            proof {
                lemma_same_obs(&mid, self);
                if self.dirty(r) && !mid.dirty(r) && r != p {
                    assert(mid.anc_chain(p).contains(r));
                    mid.lemma_anc_chain_closed(p, r);
                    assert(mid.live(r));
                    assert(false);
                }
                if r == p {
                    assert(cap_at(mid0.capsules@, r.id as int).depth@ == cap_at(
                        mid0.capsules@,
                        p.id as int,
                    ).depth@ + 1);
                    assert(false);
                }
                assert forall|q: CapsuleRef| #[trigger] self.dirty(q) implies mid.dirty(q)
                    || self.live(q) by {
                    if !mid.dirty(q) && q != p {
                        assert(mid.anc_chain(p).contains(q));
                        mid.lemma_anc_chain_closed(p, q);
                    }
                }
            }
        }
        proof {
            assert forall|q: CapsuleRef|
                old(self).live(q) && q != r implies #[trigger] self.space_of(q) == old(
                self,
            ).space_of(q) && self.style_of(q) == old(self).style_of(q) && self.data_of(q) == old(
                self,
            ).data_of(q) && self.parent_of(q) == old(self).parent_of(q) by {
                assert(mid0.live(q));
                assert(mid0.space_of(q) == old(self).space_of(q));
                assert(mid0.style_of(q) == old(self).style_of(q));
                assert(mid0.data_of(q) == old(self).data_of(q));
                assert(mid0.parent_of(q) == old(self).parent_of(q));
            }
            assert forall|q: CapsuleRef|
                old(self).live(q) && q != r implies #[trigger] self.children_of(q) == (if old(
                self,
            ).parent_of(r) == Some(q) {
                seq_without(old(self).children_of(q), r)
            } else {
                old(self).children_of(q)
            }) by {
                assert(mid0.live(q));
                assert(mid0.parent_of(q) == old(self).parent_of(q));
                assert(mid0.children_of(q) == old(self).children_of(q));
                assert(mid0.parent_of(r) == old(self).parent_of(r));
            }
            assert forall|j: int|
                0 <= j < self.bindings().len() implies self.bindings()[j] == old(
                self,
            ).bindings()[j] || self.bindings()[j] is None by {}
            assert forall|q: CapsuleRef| #[trigger] self.dirty(q) implies old(self).dirty(q)
                || self.live(q) by {
                if !self.live(q) {
                    assert(mid0.dirty(q) || old(self).dirty(q) || self.live(q));
                }
            }
        }
    }
}

/// Removing a childless live frame `r` this way preserves the invariant
/// and leaves every other frame untouched.
#[verifier::rlimit(60)]
#[verifier::spinoff_prover]
proof fn lemma_removal_shape<D>(
    pre: &Root<D>,
    post: &Root<D>,
    r: CapsuleRef,
    parent_opt: Option<CapsuleRef>,
    filtered: Seq<CapsuleRef>,
    space_ref: usize,
    style_ref: usize,
)
    requires
        pre.capsules@.len() <= usize::MAX,
        pre.wf(),
        pre.live(r),
        pre.children_of(r).len() == 0,
        parent_opt == pre.cap_of(r).parent_ref,
        space_ref == pre.cap_of(r).space_ref,
        style_ref == pre.cap_of(r).style_ref,
        parent_opt is Some ==> forall|k: int|
            0 <= k < filtered.len() ==> (#[trigger] filtered[k]) != r && pre.children_of(
                parent_opt->Some_0,
            ).contains(filtered[k]),
        parent_opt is Some ==> forall|c: CapsuleRef|
            #[trigger] filtered.contains(c) == (pre.children_of(parent_opt->Some_0).contains(c)
                && c != r),
        forall|k1: int, k2: int|
            0 <= k1 < k2 < filtered.len() ==> (#[trigger] filtered[k1]).id != (
            #[trigger] filtered[k2]).id,
        parent_opt is Some ==> filtered == seq_without(pre.children_of(parent_opt->Some_0), r),
        post.capsules@.len() == pre.capsules@.len(),
        post.capsules@[r.id as int].capsule is None,
        post.capsules@[r.id as int].generation as int == wrap_inc(r.spec_generation()),
        forall|i: int|
            0 <= i < pre.capsules@.len() && i != r.id as int && !(parent_opt is Some && i
                == parent_opt->Some_0.id as int) ==> #[trigger] post.capsules@[i]
                == pre.capsules@[i],
        parent_opt is Some ==> {
            let pid = parent_opt->Some_0.id as int;
            &&& post.capsules@[pid].generation == pre.capsules@[pid].generation
            &&& post.capsules@[pid].capsule is Some
            &&& cap_at(post.capsules@, pid).space_ref == cap_at(pre.capsules@, pid).space_ref
            &&& cap_at(post.capsules@, pid).style_ref == cap_at(pre.capsules@, pid).style_ref
            &&& cap_at(post.capsules@, pid).parent_ref == cap_at(pre.capsules@, pid).parent_ref
            &&& cap_at(post.capsules@, pid).data_ref == cap_at(pre.capsules@, pid).data_ref
            &&& cap_at(post.capsules@, pid).depth@ == cap_at(pre.capsules@, pid).depth@
            &&& cap_at(post.capsules@, pid).children@ == filtered
        },
        post.spaces@ == pre.spaces@.update(space_ref as int, None::<Space>),
        post.styles@ == pre.styles@.update(style_ref as int, None::<Style>),
        post.capsule_free_list@ == pre.capsule_free_list@.push(r.id),
        forall|q: CapsuleRef| #[trigger] post.dirty(q) == (pre.dirty(q) && q != r),
        post.allocator.slots() == pre.allocator.slots(),
        post.allocator.free_list() == pre.allocator.free_list(),
        post.allocator.wf() == pre.allocator.wf(),
        post.depth_bound@ == pre.depth_bound@,
    ensures
        post.wf(),
        post.n_slots() == pre.n_slots(),
        forall|q: CapsuleRef| #[trigger] post.live(q) == (pre.live(q) && q != r),
        post.gen_of(r.spec_id()) == wrap_inc(r.spec_generation()),
        forall|i: int|
            0 <= i < pre.n_slots() && i != r.spec_id() ==> post.gen_of(i) == pre.gen_of(i),
        forall|q: CapsuleRef|
            pre.live(q) && q != r ==> #[trigger] post.space_of(q) == pre.space_of(q)
                && post.style_of(q) == pre.style_of(q) && post.data_of(q) == pre.data_of(q)
                && post.parent_of(q) == pre.parent_of(q),
        forall|q: CapsuleRef|
            pre.live(q) && q != r ==> #[trigger] post.children_of(q) == (if pre.parent_of(r)
                == Some(q) {
                seq_without(pre.children_of(q), r)
            } else {
                pre.children_of(q)
            }),
        post.canvas() == pre.canvas(),
        post.free_ids() == pre.free_ids().push(r.id),
        !post.dirty(r),
        forall|q: CapsuleRef| pre.dirty(q) && q != r ==> #[trigger] post.dirty(q),
{
    let caps0 = pre.capsules@;
    let caps1 = post.capsules@;
    assert forall|q: CapsuleRef| true implies #[trigger] live_in(caps1, q) == (live_in(caps0, q)
        && q != r) by {
        if q.id as int != r.id as int && !(parent_opt is Some && q.id as int
            == parent_opt->Some_0.id as int) && q.id < caps0.len() {
            assert(caps1[q.id as int] == caps0[q.id as int]);
        }
    }
    assert(tree_wf(caps1, post.depth_bound@)) by {
        assert forall|i: int, k: int|
            occ(caps1, i) && 0 <= k < cap_at(caps1, i).children@.len() implies {
            let ch = #[trigger] cap_at(caps1, i).children@[k];
            live_in(caps1, ch) && cap_at(caps1, ch.id as int).parent_ref == Some(
                ref_at(caps1, i),
            )
        } by {
            let ch = cap_at(caps1, i).children@[k];
            assert(occ(caps0, i));
            if parent_opt is Some && i == parent_opt->Some_0.id as int {
                assert(filtered[k] == ch);
                assert(pre.children_of(parent_opt->Some_0).contains(ch) && ch != r);
                let w = choose|w: int|
                    0 <= w < cap_at(caps0, i).children@.len() && cap_at(
                        caps0,
                        i,
                    ).children@[w] == ch;
                assert(cap_at(caps0, i).children@[w] == ch);
            } else {
                assert(caps1[i] == caps0[i]);
                assert(cap_at(caps0, i).children@[k] == ch);
            }
            assert(live_in(caps0, ch));
            assert(cap_at(caps0, ch.id as int).parent_ref == Some(ref_at(caps0, i)));
            if ch == r {
                assert(parent_opt == Some(ref_at(caps0, i)));
                assert(parent_opt->Some_0.id as int == i);
                assert(false);
            }
            assert(cap_at(caps1, ch.id as int).parent_ref == cap_at(
                caps0,
                ch.id as int,
            ).parent_ref);
            assert(ref_at(caps1, i) == ref_at(caps0, i));
        }
        assert forall|i: int, k1: int, k2: int|
            occ(caps1, i) && 0 <= k1 < k2 < cap_at(caps1, i).children@.len() implies (
        #[trigger] cap_at(caps1, i).children@[k1]).id != (#[trigger] cap_at(
            caps1,
            i,
        ).children@[k2]).id by {
            assert(occ(caps0, i));
            if !(parent_opt is Some && i == parent_opt->Some_0.id as int) {
                assert(caps1[i] == caps0[i]);
                assert(cap_at(caps0, i).children@[k1] == cap_at(caps1, i).children@[k1]);
                assert(cap_at(caps0, i).children@[k2] == cap_at(caps1, i).children@[k2]);
            }
        }
        assert forall|i: int|
            occ(caps1, i) && (#[trigger] cap_at(caps1, i).parent_ref) is Some implies {
            let p = cap_at(caps1, i).parent_ref->Some_0;
            &&& live_in(caps1, p)
            &&& cap_at(caps1, p.id as int).children@.contains(ref_at(caps1, i))
            &&& cap_at(caps1, i).depth@ == cap_at(caps1, p.id as int).depth@ + 1
        } by {
            let p = cap_at(caps1, i).parent_ref->Some_0;
            assert(occ(caps0, i));
            assert(cap_at(caps1, i).parent_ref == cap_at(caps0, i).parent_ref);
            assert(live_in(caps0, p));
            if p == r {
                assert(cap_at(caps0, r.id as int).children@.contains(ref_at(caps0, i)));
                assert(false);
            }
            assert(live_in(caps1, p));
            assert(ref_at(caps1, i) == ref_at(caps0, i));
            assert(cap_at(caps0, p.id as int).children@.contains(ref_at(caps0, i)));
            assert(ref_at(caps0, i) != r);
            assert(cap_at(caps1, i).depth@ == cap_at(caps0, i).depth@);
            assert(cap_at(caps1, p.id as int).depth@ == cap_at(caps0, p.id as int).depth@);
            if parent_opt is Some && p.id as int == parent_opt->Some_0.id as int {
                assert(live_in(caps0, parent_opt->Some_0));
                assert(p == parent_opt->Some_0);
                assert(pre.children_of(parent_opt->Some_0).contains(ref_at(caps0, i)));
                assert(filtered.contains(ref_at(caps0, i)));
                assert(cap_at(caps1, p.id as int).children@.contains(ref_at(caps1, i)));
            } else {
                assert(caps1[p.id as int] == caps0[p.id as int]);
            }
        }
        assert forall|i: int|
            occ(caps1, i) implies 0 <= (#[trigger] cap_at(caps1, i).depth@)
            < post.depth_bound@ by {
            assert(occ(caps0, i));
            assert(cap_at(caps1, i).depth@ == cap_at(caps0, i).depth@);
            if !(parent_opt is Some && i == parent_opt->Some_0.id as int) {
                assert(caps1[i] == caps0[i]);
            }
        }
    }
    assert forall|i: int|
        occ(caps1, i) implies {
        let c = #[trigger] cap_at(caps1, i);
        &&& 1 <= c.space_ref < post.spaces@.len()
        &&& post.spaces@[c.space_ref as int] is Some
        &&& c.style_ref < post.styles@.len()
        &&& post.styles@[c.style_ref as int] is Some
    } by {
        assert(occ(caps0, i));
        assert(cap_at(caps1, i).space_ref == cap_at(caps0, i).space_ref);
        assert(cap_at(caps1, i).style_ref == cap_at(caps0, i).style_ref);
        assert(cap_at(caps0, i).space_ref != cap_at(caps0, r.id as int).space_ref);
        assert(cap_at(caps0, i).style_ref != cap_at(caps0, r.id as int).style_ref);
    }
    assert forall|i: int, j: int|
        occ(caps1, i) && occ(caps1, j) && i != j implies (#[trigger] cap_at(
        caps1,
        i,
    )).space_ref != (#[trigger] cap_at(caps1, j)).space_ref && cap_at(caps1, i).style_ref
        != cap_at(caps1, j).style_ref by {
        assert(occ(caps0, i) && occ(caps0, j));
        assert(cap_at(caps1, i).space_ref == cap_at(caps0, i).space_ref && cap_at(
            caps1,
            i,
        ).style_ref == cap_at(caps0, i).style_ref);
        assert(cap_at(caps1, j).space_ref == cap_at(caps0, j).space_ref && cap_at(
            caps1,
            j,
        ).style_ref == cap_at(caps0, j).style_ref);
    }
    assert forall|k: int|
        0 <= k < post.capsule_free_list@.len() implies (#[trigger] post.capsule_free_list@[k])
        < caps1.len() && caps1[post.capsule_free_list@[k] as int].capsule is None by {
        if k < post.capsule_free_list@.len() - 1 {
            assert(post.capsule_free_list@[k] == pre.capsule_free_list@[k]);
            assert(pre.capsule_free_list@[k] as int != r.id as int);
            if parent_opt is Some {
                assert(pre.capsule_free_list@[k] as int != parent_opt->Some_0.id as int);
            }
        } else {
            assert(post.capsule_free_list@[k] == r.id);
        }
    }
    assert forall|k1: int, k2: int|
        0 <= k1 < k2 < post.capsule_free_list@.len() implies post.capsule_free_list@[k1]
        != post.capsule_free_list@[k2] by {
        if k2 == post.capsule_free_list@.len() - 1 {
            assert(pre.capsule_free_list@[k1] as int != r.id as int);
        }
    }
    assert forall|q: CapsuleRef|
        #[trigger] post.dirties@.contains(q) && live_in(caps1, q) && cap_at(
            caps1,
            q.id as int,
        ).parent_ref is Some implies post.dirties@.contains(
        cap_at(caps1, q.id as int).parent_ref->Some_0,
    ) by {
        assert(post.dirty(q));
        assert(q != r);
        assert(live_in(caps0, q));
        assert(cap_at(caps1, q.id as int).parent_ref == cap_at(caps0, q.id as int).parent_ref);
        let pq = cap_at(caps0, q.id as int).parent_ref->Some_0;
        assert(pre.dirty(q));
        assert(pre.dirties@.contains(q));
        assert(pre.dirties@.contains(pq));
        if pq == r {
            assert(cap_at(caps0, r.id as int).children@.contains(ref_at(caps0, q.id as int)));
            assert(false);
        }
        assert(pre.dirty(pq));
        assert(post.dirty(pq));
    }
    assert(post.wf());
    assert forall|q: CapsuleRef|
        pre.live(q) && q != r implies #[trigger] post.space_of(q) == pre.space_of(q)
            && post.style_of(q) == pre.style_of(q) && post.data_of(q) == pre.data_of(q)
            && post.parent_of(q) == pre.parent_of(q) by {
        assert(cap_at(caps1, q.id as int).space_ref == cap_at(caps0, q.id as int).space_ref);
        assert(cap_at(caps0, q.id as int).space_ref != cap_at(caps0, r.id as int).space_ref);
        assert(cap_at(caps1, q.id as int).style_ref == cap_at(caps0, q.id as int).style_ref);
        assert(cap_at(caps0, q.id as int).style_ref != cap_at(caps0, r.id as int).style_ref);
    }
    assert forall|q: CapsuleRef|
        pre.live(q) && q != r implies #[trigger] post.children_of(q) == (if pre.parent_of(r)
            == Some(q) {
            seq_without(pre.children_of(q), r)
        } else {
            pre.children_of(q)
        }) by {
        if pre.parent_of(r) == Some(q) {
            assert(parent_opt == Some(q));
            assert(q.id as int == parent_opt->Some_0.id as int);
            assert(post.children_of(q) == filtered);
        } else {
            if parent_opt is Some && q.id as int == parent_opt->Some_0.id as int {
                assert(q == ref_at(caps0, parent_opt->Some_0.id as int));
                assert(parent_opt->Some_0 == q);
                assert(false);
            }
            assert(caps1[q.id as int] == caps0[q.id as int]);
        }
    }
}

/// What removing a live frame does: the frame and every descendant die,
/// each emptied slot's generation advances (so stale handles never match
/// again), every surviving frame keeps its geometry, style, payload link
/// and parent, the removed frame leaves its parent's children list, and
/// the parent is marked for relayout.
pub open spec fn remove_frame_post<D>(pre: &Root<D>, post: &Root<D>, fr: CapsuleRef) -> bool {
    &&& !post.live(fr)
    &&& forall|q: CapsuleRef| !pre.live(q) ==> !(#[trigger] post.live(q))
    &&& forall|q: CapsuleRef| #[trigger] post.live(q) ==> pre.live(q)
    &&& forall|q: CapsuleRef|
        pre.live(q) && !(#[trigger] post.live(q)) ==> post.gen_of(q.spec_id()) == wrap_inc(
            q.spec_generation(),
        )
    &&& forall|q: CapsuleRef|
        pre.live(q) && pre.anc_chain(q).contains(fr) ==> !(#[trigger] post.live(q))
    &&& forall|q: CapsuleRef|
        #[trigger] post.live(q) ==> post.space_of(q) == pre.space_of(q) && post.style_of(q)
            == pre.style_of(q) && post.data_of(q) == pre.data_of(q) && post.parent_of(q)
            == pre.parent_of(q)
    &&& forall|q: CapsuleRef|
        #[trigger] post.live(q) ==> post.children_of(q) == (if pre.parent_of(fr) == Some(q) {
            seq_without(pre.children_of(q), fr)
        } else {
            pre.children_of(q)
        })
    &&& post.canvas() == pre.canvas()
    &&& post.n_slots() == pre.n_slots()
    &&& !post.dirty(fr)
    &&& forall|q: CapsuleRef| pre.dirty(q) && #[trigger] post.live(q) ==> post.dirty(q)
    &&& (pre.parent_of(fr) is Some && post.live(pre.parent_of(fr)->Some_0) ==> post.dirty(
        pre.parent_of(fr)->Some_0,
    ))
}

/// In a well-formed graph, a live frame with a dead strict ancestor cannot
/// exist; so if every survivor kept its parent and `fr` died, everything
/// that had `fr` in its ancestor chain died too.
proof fn lemma_subtree_dies<D>(pre: &Root<D>, post: &Root<D>, fr: CapsuleRef, q: CapsuleRef)
    requires
        pre.wf(),
        post.wf(),
        !post.live(fr),
        forall|x: CapsuleRef| #[trigger] post.live(x) ==> pre.live(x),
        forall|x: CapsuleRef|
            #[trigger] post.live(x) ==> post.parent_of(x) == pre.parent_of(x),
        pre.live(q),
        pre.anc_chain(q).contains(fr),
    ensures
        !post.live(q),
    decreases pre.depth_of(q),
{
    if post.live(q) {
        let p = pre.cap_of(q).parent_ref->Some_0;
        assert(pre.anc_chain(q) == seq![p] + pre.anc_chain(p));
        lemma_concat_contains(seq![p], pre.anc_chain(p), fr);
        assert(post.parent_of(q) == pre.parent_of(q));
        assert(post.live(p));
        if fr == p {
            assert(false);
        } else {
            assert(pre.anc_chain(p).contains(fr));
            lemma_subtree_dies(pre, post, fr, p);
        }
    }
}

/// Dropping `r` from a sequence keeps exactly the other members.
proof fn lemma_seq_without_sub(s: Seq<CapsuleRef>, r: CapsuleRef, c: CapsuleRef)
    ensures
        seq_without(s, r).contains(c) <==> (s.contains(c) && c != r),
    decreases s.len(),
{
    if s.len() > 0 {
        lemma_seq_without_sub(s.drop_last(), r, c);
        lemma_push_contains(seq_without(s.drop_last(), r), s.last(), c);
        if s.contains(c) && c != r {
            let w = choose|w: int| 0 <= w < s.len() && s[w] == c;
            if w < s.len() - 1 {
                assert(s.drop_last()[w] == c);
            }
        }
        if s.drop_last().contains(c) {
            let w = choose|w: int| 0 <= w < s.len() - 1 && s.drop_last()[w] == c;
            assert(s[w] == c);
        }
    }
}

/// One step of subtree removal: removing the childless frame at position
/// `k` of a post-order listing keeps every accounting fact the removal loop
/// relies on, with the window moved one frame forward.
#[verifier::rlimit(80)]
#[verifier::spinoff_prover]
proof fn lemma_remove_frame_step<D>(
    orig: &Root<D>,
    mid: &Root<D>,
    post: &Root<D>,
    order: Seq<CapsuleRef>,
    k: int,
    fr: CapsuleRef,
)
    requires
        orig.wf(),
        mid.wf(),
        post.wf(),
        0 <= k < order.len(),
        order[order.len() - 1] == fr,
        forall|j: int| 0 <= j < order.len() ==> live_in(orig.capsules@, #[trigger] order[j]),
        forall|j1: int, j2: int| 0 <= j1 < j2 < order.len() ==> order[j1] != order[j2],
        parents_follow(orig.capsules@, order),
        window_closed(mid.capsules@, order, k),
        forall|j: int| k <= j < order.len() ==> mid.live(#[trigger] order[j]),
        forall|q: CapsuleRef|
            #[trigger] mid.live(q) == (orig.live(q) && !order.subrange(0, k).contains(q)),
        forall|q: CapsuleRef|
            orig.live(q) && !mid.live(q) ==> #[trigger] mid.gen_of(q.spec_id()) == wrap_inc(
                q.spec_generation(),
            ),
        mid.n_slots() == orig.n_slots(),
        forall|q: CapsuleRef|
            #[trigger] mid.live(q) ==> mid.space_of(q) == orig.space_of(q) && mid.style_of(q)
                == orig.style_of(q) && mid.data_of(q) == orig.data_of(q) && mid.parent_of(q)
                == orig.parent_of(q),
        forall|q: CapsuleRef|
            #[trigger] mid.live(q) && !order.contains(q) ==> mid.children_of(q) == (
            if orig.parent_of(fr) == Some(q) && order.subrange(0, k).contains(fr) {
                seq_without(orig.children_of(q), fr)
            } else {
                orig.children_of(q)
            }),
        forall|q: CapsuleRef| orig.dirty(q) && #[trigger] mid.live(q) ==> mid.dirty(q),
        forall|j: int| 0 <= j < k ==> !mid.dirty(#[trigger] order[j]),
        forall|j: int|
            0 <= j < k && orig.parent_of(#[trigger] order[j]) is Some && mid.live(
                orig.parent_of(order[j])->Some_0,
            ) ==> mid.dirty(orig.parent_of(order[j])->Some_0),
        // what removing the single frame at position `k` did
        post.n_slots() == mid.n_slots(),
        forall|q: CapsuleRef| #[trigger] post.live(q) == (mid.live(q) && q != order[k]),
        post.gen_of(order[k].spec_id()) == wrap_inc(order[k].spec_generation()),
        forall|i: int|
            0 <= i < mid.n_slots() && i != order[k].spec_id() ==> post.gen_of(i) == mid.gen_of(i),
        forall|q: CapsuleRef|
            mid.live(q) && q != order[k] ==> #[trigger] post.space_of(q) == mid.space_of(q)
                && post.style_of(q) == mid.style_of(q) && post.data_of(q) == mid.data_of(q)
                && post.parent_of(q) == mid.parent_of(q),
        forall|q: CapsuleRef|
            mid.live(q) && q != order[k] ==> #[trigger] post.children_of(q) == (
            if mid.parent_of(order[k]) == Some(q) {
                seq_without(mid.children_of(q), order[k])
            } else {
                mid.children_of(q)
            }),
        post.canvas() == mid.canvas(),
        !post.dirty(order[k]),
        forall|q: CapsuleRef| mid.dirty(q) && q != order[k] ==> #[trigger] post.dirty(q),
        forall|q: CapsuleRef| #[trigger] post.dirty(q) ==> mid.dirty(q) || post.live(q),
        mid.parent_of(order[k]) is Some ==> post.dirty(mid.parent_of(order[k])->Some_0),
    ensures
        window_closed(post.capsules@, order, k + 1),
        forall|j: int| k + 1 <= j < order.len() ==> post.live(#[trigger] order[j]),
        forall|q: CapsuleRef|
            #[trigger] post.live(q) == (orig.live(q) && !order.subrange(0, k + 1).contains(q)),
        forall|q: CapsuleRef|
            orig.live(q) && !post.live(q) ==> #[trigger] post.gen_of(q.spec_id()) == wrap_inc(
                q.spec_generation(),
            ),
        forall|q: CapsuleRef|
            #[trigger] post.live(q) ==> post.space_of(q) == orig.space_of(q) && post.style_of(q)
                == orig.style_of(q) && post.data_of(q) == orig.data_of(q) && post.parent_of(q)
                == orig.parent_of(q),
        forall|q: CapsuleRef|
            #[trigger] post.live(q) && !order.contains(q) ==> post.children_of(q) == (
            if orig.parent_of(fr) == Some(q) && order.subrange(0, k + 1).contains(fr) {
                seq_without(orig.children_of(q), fr)
            } else {
                orig.children_of(q)
            }),
        forall|q: CapsuleRef| orig.dirty(q) && #[trigger] post.live(q) ==> post.dirty(q),
        forall|j: int| 0 <= j < k + 1 ==> !post.dirty(#[trigger] order[j]),
        forall|j: int|
            0 <= j < k + 1 && orig.parent_of(#[trigger] order[j]) is Some && post.live(
                orig.parent_of(order[j])->Some_0,
            ) ==> post.dirty(orig.parent_of(order[j])->Some_0),
{
    let r = order[k];
    let sub1 = order.subrange(0, k + 1);
    assert(sub1 == order.subrange(0, k).push(r));
    assert forall|q: CapsuleRef| true implies #[trigger] sub1.contains(q) == (order.subrange(
        0,
        k,
    ).contains(q) || q == r) by {
        lemma_push_contains(order.subrange(0, k), r, q);
    }
    assert(mid.live(r));
    // the live window shrinks by exactly the removed frame
    assert forall|q: CapsuleRef| true implies #[trigger] post.live(q) == (orig.live(q)
        && !sub1.contains(q)) by {}
    assert forall|j: int| k + 1 <= j < order.len() implies post.live(#[trigger] order[j]) by {
        assert(order[j] != r);
    }
    // generations of every dead frame stay advanced
    assert forall|q: CapsuleRef|
        orig.live(q) && !post.live(q) implies #[trigger] post.gen_of(q.spec_id()) == wrap_inc(
        q.spec_generation(),
    ) by {
        if q == r {
        } else if !mid.live(q) {
            if q.spec_id() == r.spec_id() {
                // two handles of one slot that were both live in the original
                // graph carry the same generation, so they are the same handle
                assert(order.subrange(0, k).contains(q));
                let j = choose|j: int| 0 <= j < k && order.subrange(0, k)[j] == q;
                assert(order[j] == q);
                assert(live_in(orig.capsules@, q) && live_in(orig.capsules@, r));
                assert(q.generation == orig.capsules@[q.id as int].generation);
                assert(r.generation == orig.capsules@[r.id as int].generation);
                assert(q == r);
                assert(false);
            }
        } else {
            assert(mid.live(q) && !post.live(q));
            assert(q == r);
            assert(false);
        }
    }
    // the remaining window stays closed: a live listed frame's children all
    // sit between the new window start and the frame
    assert forall|j: int, c: CapsuleRef|
        k + 1 <= j < order.len() && live_in(post.capsules@, order[j]) && #[trigger] cap_at(
            post.capsules@,
            order[j].id as int,
        ).children@.contains(c) implies exists|i: int| k + 1 <= i < j && order[i] == c by {
        let q = order[j];
        assert(post.live(q));
        assert(mid.live(q) && q != r);
        assert(post.children_of(q) == cap_at(post.capsules@, q.id as int).children@);
        if mid.parent_of(r) == Some(q) {
            lemma_seq_without_sub(mid.children_of(q), r, c);
        }
        assert(mid.children_of(q).contains(c));
        lemma_window_take(mid.capsules@, order, k, j, c);
        let i = choose|i: int| k <= i < j && order[i] == c;
        // the removed frame cannot reappear as a live child
        assert(live_in(post.capsules@, c));
        assert(c != r);
        assert(i != k);
        assert(k + 1 <= i < j && order[i] == c);
    }
    // surviving frames keep their observations
    assert forall|q: CapsuleRef|
        #[trigger] post.live(q) implies post.space_of(q) == orig.space_of(q) && post.style_of(q)
        == orig.style_of(q) && post.data_of(q) == orig.data_of(q) && post.parent_of(q)
        == orig.parent_of(q) by {
        assert(mid.live(q) && q != r);
    }
    // children lists change only at the parent of the frame just removed,
    // which either lies later in the listing or is the subtree root's parent
    assert forall|q: CapsuleRef|
        #[trigger] post.live(q) && !order.contains(q) implies post.children_of(q) == (
    if orig.parent_of(fr) == Some(q) && sub1.contains(fr) {
        seq_without(orig.children_of(q), fr)
    } else {
        orig.children_of(q)
    }) by {
        assert(mid.live(q) && q != r);
        assert(mid.parent_of(r) == orig.parent_of(r));
        if k < order.len() - 1 {
            // an interior frame's parent is itself listed
            assert(r != fr);
            lemma_parents_follow_take(orig.capsules@, order, k);
            let i = choose|i: int|
                k < i < order.len() && order[i] == cap_at(
                    orig.capsules@,
                    order[k].id as int,
                ).parent_ref->Some_0;
            assert(orig.parent_of(r) == Some(order[i]));
            assert(order.contains(order[i]));
            assert(mid.parent_of(r) != Some(q));
            assert(post.children_of(q) == mid.children_of(q));
            assert(!sub1.contains(fr)) by {
                if sub1.contains(fr) {
                    let w = choose|w: int| 0 <= w < sub1.len() && sub1[w] == fr;
                    assert(order[w] == fr);
                    assert(w < order.len() - 1);
                    assert(false);
                }
            }
            assert(!order.subrange(0, k).contains(fr)) by {
                if order.subrange(0, k).contains(fr) {
                    let w = choose|w: int| 0 <= w < k && order.subrange(0, k)[w] == fr;
                    assert(order[w] == fr);
                    assert(false);
                }
            }
        } else {
            // the last step removes the subtree root itself
            assert(r == fr);
            assert(sub1.contains(fr));
            assert(!order.subrange(0, k).contains(fr)) by {
                if order.subrange(0, k).contains(fr) {
                    let w = choose|w: int| 0 <= w < k && order.subrange(0, k)[w] == fr;
                    assert(order[w] == fr);
                    assert(false);
                }
            }
            assert(mid.children_of(q) == orig.children_of(q));
            if orig.parent_of(fr) == Some(q) {
                assert(post.children_of(q) == seq_without(orig.children_of(q), fr));
            } else {
                assert(mid.parent_of(fr) != Some(q));
                assert(post.children_of(q) == orig.children_of(q));
            }
        }
    }
    // dirtiness: marked survivors stay marked, removed frames are unmarked,
    // and each removed frame's surviving parent is marked
    assert forall|q: CapsuleRef|
        orig.dirty(q) && #[trigger] post.live(q) implies post.dirty(q) by {
        assert(mid.live(q) && q != r);
        assert(mid.dirty(q));
    }
    assert forall|j: int| 0 <= j < k + 1 implies !post.dirty(#[trigger] order[j]) by {
        if j < k {
            assert(!mid.dirty(order[j]));
            assert(!mid.live(order[j])) by {
                assert(order.subrange(0, k).contains(order[j])) by {
                    assert(order.subrange(0, k)[j] == order[j]);
                }
            }
            assert(!post.live(order[j]));
            if post.dirty(order[j]) {
                assert(false);
            }
        }
    }
    assert forall|j: int|
        0 <= j < k + 1 && orig.parent_of(#[trigger] order[j]) is Some && post.live(
            orig.parent_of(order[j])->Some_0,
        ) implies post.dirty(orig.parent_of(order[j])->Some_0) by {
        let p = orig.parent_of(order[j])->Some_0;
        assert(mid.live(p) && p != r);
        if j < k {
            assert(mid.dirty(p));
        } else {
            assert(mid.parent_of(r) == orig.parent_of(r));
        }
    }
}

impl<D> Root<D> {
    /// Removes the frame at `frame_ref` together with its whole subtree:
    /// every frame in it is detached, its geometry and style slots are
    /// freed, and its slot's generation advances so stale handles never
    /// match again. The removed frame leaves its parent's children list and
    /// the parent is marked for relayout. Removing a stale handle changes
    /// nothing.
    #[verifier::rlimit(80)]
    #[verifier::spinoff_prover]
    pub fn remove_frame(&mut self, frame_ref: CapsuleRef)
        requires
            old(self).wf(),
        ensures
            final(self).wf(),
            old(self).live(frame_ref) ==> remove_frame_post(old(self), final(self), frame_ref),
            !old(self).live(frame_ref) ==> same_tree(old(self), final(self)) && same_spaces(
                old(self),
                final(self),
            ) && same_styles(old(self), final(self)) && same_bindings(old(self), final(self))
                && same_dirty(old(self), final(self)),
    {
        if self.get_capsule(frame_ref).is_none() {
            return ;
        }
        let ghost caps0 = self.capsules@;
        let ghost bound = self.depth_bound@;
        let order = collect_subtree(&self.capsules, frame_ref, Ghost(self.depth_bound@));
        let mut k: usize = 0;
        while k < order.len()
            invariant
                old(self).wf(),
                self.wf(),
                k <= order@.len(),
                caps0 == old(self).capsules@,
                bound == old(self).depth_bound@,
                order@.len() >= 1,
                order@[order@.len() - 1] == frame_ref,
                forall|j: int| 0 <= j < order@.len() ==> live_in(caps0, #[trigger] order@[j]),
                forall|j: int|
                    0 <= j < order@.len() ==> cap_at(caps0, (#[trigger] order@[j]).id as int).depth@
                        >= cap_at(caps0, frame_ref.id as int).depth@,
                forall|j1: int, j2: int| 0 <= j1 < j2 < order@.len() ==> order@[j1] != order@[j2],
                parents_follow(caps0, order@),
                window_closed(self.capsules@, order@, k as int),
                forall|j: int| k <= j < order@.len() ==> self.live(#[trigger] order@[j]),
                forall|q: CapsuleRef|
                    #[trigger] self.live(q) == (old(self).live(q) && !order@.subrange(
                        0,
                        k as int,
                    ).contains(q)),
                forall|q: CapsuleRef|
                    old(self).live(q) && !self.live(q) ==> #[trigger] self.gen_of(q.spec_id())
                        == wrap_inc(q.spec_generation()),
                self.n_slots() == old(self).n_slots(),
                forall|q: CapsuleRef|
                    #[trigger] self.live(q) ==> self.space_of(q) == old(self).space_of(q)
                        && self.style_of(q) == old(self).style_of(q) && self.data_of(q) == old(
                        self,
                    ).data_of(q) && self.parent_of(q) == old(self).parent_of(q),
                forall|q: CapsuleRef|
                    #[trigger] self.live(q) && !order@.contains(q) ==> self.children_of(q) == (
                    if old(self).parent_of(frame_ref) == Some(q) && order@.subrange(
                        0,
                        k as int,
                    ).contains(frame_ref) {
                        seq_without(old(self).children_of(q), frame_ref)
                    } else {
                        old(self).children_of(q)
                    }),
                self.canvas() == old(self).canvas(),
                forall|q: CapsuleRef|
                    old(self).dirty(q) && #[trigger] self.live(q) ==> self.dirty(q),
                forall|j: int| 0 <= j < k ==> !self.dirty(#[trigger] order@[j]),
                forall|j: int|
                    0 <= j < k && old(self).parent_of(#[trigger] order@[j]) is Some && self.live(
                        old(self).parent_of(order@[j])->Some_0,
                    ) ==> self.dirty(old(self).parent_of(order@[j])->Some_0),
            decreases order@.len() - k,
        {
            let r = order[k];
            proof {
                // the window is closed from `k` on, so the frame at `k` has
                // no live children left
                if self.children_of(r).len() > 0 {
                    let c = self.cap_of(r).children@[0];
                    assert(cap_at(self.capsules@, r.id as int).children@.contains(c));
                    lemma_window_take(self.capsules@, order@, k as int, k as int, c);
                    assert(false);
                }
            }
            let ghost mid = *self;
            self.remove_single(r);
            proof {
                lemma_remove_frame_step(old(self), &mid, self, order@, k as int, frame_ref);
            }
            k += 1;
        }
        proof {
            assert(order@.subrange(0, order@.len() as int) == order@);
            assert(order@.contains(frame_ref));
            assert(!self.live(frame_ref));
            assert forall|q: CapsuleRef|
                old(self).live(q) && old(self).anc_chain(q).contains(frame_ref) implies !(
            #[trigger] self.live(q)) by {
                lemma_subtree_dies(old(self), self, frame_ref, q);
            }
            assert forall|q: CapsuleRef| #[trigger] self.live(q) implies self.children_of(q) == (
            if old(self).parent_of(frame_ref) == Some(q) {
                seq_without(old(self).children_of(q), frame_ref)
            } else {
                old(self).children_of(q)
            }) by {
                assert(!order@.contains(q));
            }
            if old(self).parent_of(frame_ref) is Some && self.live(
                old(self).parent_of(frame_ref)->Some_0,
            ) {
                assert(self.dirty(old(self).parent_of(frame_ref)->Some_0));
            }
            assert(!self.dirty(frame_ref));
            assert(remove_frame_post(old(self), self, frame_ref));
        }
    }
}

impl Frame {
    /// Marks this frame (and its ancestors) as needing relayout.
    pub fn set_dirty<D>(&self, root: &mut Root<D>)
        requires
            old(root).wf(),
        ensures
            final(root).wf(),
            same_tree(old(root), final(root)),
            same_spaces(old(root), final(root)),
            same_styles(old(root), final(root)),
            same_bindings(old(root), final(root)),
            final(root).dirty(self.spec_ref()),
            forall|q: CapsuleRef| old(root).dirty(q) ==> #[trigger] final(root).dirty(q),
            forall|q: CapsuleRef|
                #[trigger] final(root).dirty(q) ==> old(root).dirty(q) || q == self.spec_ref()
                    || old(root).anc_chain(self.spec_ref()).contains(q),
    {
        root.set_dirty(self.capsule_ref);
        proof {
            lemma_same_obs(old(root), root);
        }
    }

    /// The only sanctioned way to change a frame's style: applies the given
    /// function to the current style and marks the frame dirty, so the next
    /// `compute` sees the change. A stale handle changes nothing.
    pub fn update_style<D, F: FnOnce(Style) -> Style>(&self, root: &mut Root<D>, applier: F)
        requires
            old(root).wf(),
            old(root).style_of(self.spec_ref()) is Some ==> call_requires(
                applier,
                (old(root).style_of(self.spec_ref())->Some_0,),
            ),
        ensures
            final(root).wf(),
            same_tree(old(root), final(root)),
            same_spaces(old(root), final(root)),
            same_bindings(old(root), final(root)),
            !old(root).live(self.spec_ref()) ==> same_styles(old(root), final(root)) && same_dirty(
                old(root),
                final(root),
            ),
            old(root).live(self.spec_ref()) ==> {
                let r = self.spec_ref();
                &&& final(root).style_of(r) is Some
                &&& call_ensures(
                    applier,
                    (old(root).style_of(r)->Some_0,),
                    final(root).style_of(r)->Some_0,
                )
                &&& forall|q: CapsuleRef|
                    q != r && old(root).live(q) ==> #[trigger] final(root).style_of(q) == old(
                        root,
                    ).style_of(q)
                &&& final(root).dirty(r)
                &&& forall|q: CapsuleRef| old(root).dirty(q) ==> #[trigger] final(root).dirty(q)
                &&& forall|q: CapsuleRef|
                    #[trigger] final(root).dirty(q) ==> old(root).dirty(q) || q == r || old(
                        root,
                    ).anc_chain(r).contains(q)
            },
    {
        let r = self.capsule_ref;
        let sref: usize;
        match root.get_capsule(r) {
            Some(cap) => {
                sref = cap.style_ref;
            },
            None => {
                return ;
            },
        }
        let cur: Style = match root.styles[sref] {
            Some(s) => s,
            None => {
                proof {
                    assert(false);
                }
                Style::default()
            },
        };
        let s2 = applier(cur);
        let slot = &mut root.styles[sref];
        *slot = Some(s2);
        proof {
            let caps = root.capsules@;
            assert forall|i: int|
                occ(caps, i) implies {
                let c = #[trigger] cap_at(caps, i);
                &&& 1 <= c.space_ref < root.spaces@.len()
                &&& root.spaces@[c.space_ref as int] is Some
                &&& c.style_ref < root.styles@.len()
                &&& root.styles@[c.style_ref as int] is Some
            } by {
                assert(occ(old(root).capsules@, i));
            }
            assert(root.wf());
            assert forall|q: CapsuleRef|
                q != r && old(root).live(q) implies #[trigger] root.style_of(q) == old(
                root,
            ).style_of(q) by {
                assert(cap_at(caps, q.id as int).style_ref != cap_at(caps, r.id as int).style_ref);
            }
        }
        let ghost mid = *root;
        root.set_dirty(r);
        proof {
            lemma_same_obs(&mid, root);
        }
    }
}

/// Two graphs that differ at most in their dirty sets agree on every
/// observation that does not mention dirtiness.
proof fn lemma_same_obs<D>(a: &Root<D>, b: &Root<D>)
    requires
        b.eq_but_dirties(a),
    ensures
        b.n_slots() == a.n_slots(),
        forall|i: int| 0 <= i < a.n_slots() ==> b.gen_of(i) == a.gen_of(i),
        forall|q: CapsuleRef| #[trigger] b.live(q) == a.live(q),
        forall|q: CapsuleRef| a.live(q) ==> #[trigger] b.cap_of(q) == a.cap_of(q),
        forall|q: CapsuleRef| #[trigger] b.space_of(q) == a.space_of(q),
        forall|q: CapsuleRef| #[trigger] b.style_of(q) == a.style_of(q),
        forall|q: CapsuleRef| a.live(q) ==> #[trigger] b.parent_of(q) == a.parent_of(q),
        forall|q: CapsuleRef| a.live(q) ==> #[trigger] b.children_of(q) == a.children_of(q),
        forall|q: CapsuleRef| a.live(q) ==> #[trigger] b.data_of(q) == a.data_of(q),
        b.free_ids() == a.free_ids(),
        b.bindings() == a.bindings(),
        b.canvas() == a.canvas(),
        forall|q: CapsuleRef| #[trigger] b.anc_chain(q) == a.anc_chain(q),
{
}

/// What creating a frame does, short of the dirty set: the returned handle
/// is fresh and live, it took the oldest free slot (or a new one), its
/// geometry is zeroed and its style defaulted, it hangs under the requested
/// parent when that handle was live, and every other frame is untouched
/// (except the parent gaining the child).
pub open spec fn add_frame_structural<D>(
    pre: &Root<D>,
    post: &Root<D>,
    nr: CapsuleRef,
    parent_ref: Option<CapsuleRef>,
    data: Option<DataRef>,
) -> bool {
    let attached = parent_ref is Some && pre.live(parent_ref->Some_0);
    &&& !pre.live(nr)
    &&& post.live(nr)
    &&& nr.spec_id() == (if pre.free_ids().len() > 0 {
        pre.free_ids()[0] as int
    } else {
        pre.n_slots()
    })
    &&& post.n_slots() == (if pre.free_ids().len() > 0 {
        pre.n_slots()
    } else {
        pre.n_slots() + 1
    })
    &&& post.free_ids() == (if pre.free_ids().len() > 0 {
        pre.free_ids().drop_first()
    } else {
        pre.free_ids()
    })
    &&& pre.free_ids().len() == 0 ==> nr.spec_generation() == 0
    &&& forall|i: int| 0 <= i < pre.n_slots() ==> post.gen_of(i) == pre.gen_of(i)
    &&& forall|q: CapsuleRef| q != nr ==> #[trigger] post.live(q) == pre.live(q)
    &&& post.parent_of(nr) == (if attached {
        parent_ref
    } else {
        None::<CapsuleRef>
    })
    &&& post.children_of(nr) == Seq::<CapsuleRef>::empty()
    &&& post.data_of(nr) == data
    &&& post.style_of(nr) == Some(spec_default_style())
    &&& post.space_of(nr) == Some(Space { x: 0, y: 0, width: None::<u32>, height: None::<u32> })
    &&& forall|q: CapsuleRef|
        pre.live(q) ==> #[trigger] post.space_of(q) == pre.space_of(q) && post.style_of(q)
            == pre.style_of(q) && post.data_of(q) == pre.data_of(q) && post.parent_of(q)
            == pre.parent_of(q)
    &&& forall|q: CapsuleRef|
        pre.live(q) ==> #[trigger] post.children_of(q) == (if attached && q == parent_ref->Some_0 {
            pre.children_of(q).push(nr)
        } else {
            pre.children_of(q)
        })
    &&& post.canvas() == pre.canvas()
    &&& post.bindings() == pre.bindings()
}

impl<D> Root<D> {
    /// Updates the canvas size and marks every top-level frame dirty, so
    /// the next `compute` lays the whole forest out against the new size.
    pub fn resize(&mut self, new_width: u32, new_height: u32)
        requires
            old(self).wf(),
        ensures
            final(self).wf(),
            same_tree(old(self), final(self)),
            same_styles(old(self), final(self)),
            same_bindings(old(self), final(self)),
            final(self).canvas() == (Space {
                width: Some(new_width),
                height: Some(new_height),
                ..old(self).canvas()
            }),
            forall|q: CapsuleRef|
                old(self).live(q) ==> #[trigger] final(self).space_of(q) == old(self).space_of(q),
            forall|q: CapsuleRef|
                old(self).live(q) && old(self).parent_of(q) is None
                    ==> #[trigger] final(self).dirty(q),
            forall|q: CapsuleRef| old(self).dirty(q) ==> #[trigger] final(self).dirty(q),
            forall|q: CapsuleRef|
                #[trigger] final(self).dirty(q) ==> old(self).dirty(q) || (old(self).live(q)
                    && old(self).parent_of(q) is None),
    {
        let cur = match self.spaces[0] {
            Some(s) => s,
            None => {
                proof {
                    assert(false);
                }
                Space::zero()
            },
        };
        let slot = &mut self.spaces[0];
        *slot = Some(Space { width: Some(new_width), height: Some(new_height), ..cur });
        proof {
            assert forall|i: int|
                occ(self.capsules@, i) implies {
                let c = #[trigger] cap_at(self.capsules@, i);
                &&& 1 <= c.space_ref < self.spaces@.len()
                &&& self.spaces@[c.space_ref as int] is Some
                &&& c.style_ref < self.styles@.len()
                &&& self.styles@[c.style_ref as int] is Some
            } by {
                assert(occ(old(self).capsules@, i));
            }
            assert(self.wf());
        }
        let ghost snap = *self;
        let mut i: usize = 0;
        while i < self.capsules.len()
            invariant
                snap.wf(),
                self.wf(),
                self.eq_but_dirties(&snap),
                i <= snap.capsules@.len(),
                forall|q: CapsuleRef| snap.dirty(q) ==> #[trigger] self.dirty(q),
                forall|q: CapsuleRef|
                    #[trigger] self.dirty(q) ==> snap.dirty(q) || (snap.live(q) && snap.parent_of(
                        q,
                    ) is None),
                forall|j: int|
                    0 <= j < i && occ(snap.capsules@, j) && cap_at(snap.capsules@, j).parent_ref
                        is None ==> #[trigger] self.dirty(ref_at(snap.capsules@, j)),
            decreases snap.capsules@.len() - i,
        {
            let is_top: bool = match &self.capsules[i].capsule {
                Some(c) => c.parent_ref.is_none(),
                None => false,
            };
            if is_top {
                let r = CapsuleRef { id: i, generation: self.capsules[i].generation };
                let ghost pre = *self;
                self.set_dirty(r);
                proof {
                    assert(pre.live(r) && pre.parent_of(r) is None);
                    assert(pre.anc_chain(r) == Seq::<CapsuleRef>::empty());
                    assert forall|q: CapsuleRef| #[trigger] self.dirty(q) implies snap.dirty(q)
                        || (snap.live(q) && snap.parent_of(q) is None) by {
                        if !pre.dirty(q) && q != r {
                            assert(pre.anc_chain(r).contains(q));
                        }
                    }
                }
            }
            i += 1;
        }
        proof {
            lemma_same_obs(&snap, self);
            assert forall|q: CapsuleRef|
                old(self).live(q) && old(self).parent_of(q) is None implies #[trigger] self.dirty(
                q,
            ) by {
                assert(occ(snap.capsules@, q.id as int) && cap_at(
                    snap.capsules@,
                    q.id as int,
                ).parent_ref is None);
                assert(ref_at(snap.capsules@, q.id as int) == q);
            }
        }
    }

    /// Hands a payload to the store and returns the index a frame can be
    /// bound to.
    pub fn set_binding(&mut self, data: D) -> (id: DataRef)
        requires
            old(self).wf(),
        ensures
            final(self).wf(),
            same_tree(old(self), final(self)),
            same_spaces(old(self), final(self)),
            same_styles(old(self), final(self)),
            same_dirty(old(self), final(self)),
            id < final(self).bindings().len(),
            final(self).bindings()[id as int] == Some(data),
            forall|j: int|
                0 <= j < old(self).bindings().len() && j != id ==> final(self).bindings()[j] == old(
                    self,
                ).bindings()[j],
    {
        self.allocator.allocate(data)
    }

    /// The payload at `index`, or nothing for a free or out-of-range index.
    pub fn get_binding(&self, index: DataRef) -> (r: Option<&D>)
        ensures
            match r {
                Some(data) => index < self.bindings().len() && self.bindings()[index as int]
                    == Some(*data),
                None => index >= self.bindings().len() || self.bindings()[index as int] is None,
            },
    {
        self.allocator.get(index)
    }

    /// Mutable access to the payload at `index`, or nothing for a free or
    /// out-of-range index.
    pub fn get_binding_mut(&mut self, index: DataRef) -> (r: Option<&mut D>)
        requires
            old(self).wf(),
        ensures
            final(self).wf(),
            same_tree(old(self), final(self)),
            same_spaces(old(self), final(self)),
            same_styles(old(self), final(self)),
            same_dirty(old(self), final(self)),
            r is Some <==> (index < old(self).bindings().len() && old(self).bindings()[index as int]
                is Some),
            r is Some ==> old(self).bindings()[index as int] == Some(*r.unwrap())
                && final(self).bindings() == old(self).bindings().update(
                index as int,
                Some(*final(r.unwrap())),
            ),
            r is None ==> final(self).bindings() =~= old(self).bindings(),
    {
        self.allocator.get_mut(index)
    }

    /// The payload bound to `frame`, or nothing when the handle is stale,
    /// the frame carries no binding, or the bound slot is free.
    pub fn get_binding_for_frame(&mut self, frame: &Frame) -> (r: Option<&D>)
        requires
            old(self).wf(),
        ensures
            match r {
                Some(data) => old(self).live(frame.spec_ref()) && old(self).data_of(
                    frame.spec_ref(),
                ) is Some && old(self).bindings()[old(self).data_of(frame.spec_ref())->Some_0 as int]
                    == Some(*data),
                None => !old(self).live(frame.spec_ref()) || old(self).data_of(frame.spec_ref())
                    is None || old(self).data_of(frame.spec_ref())->Some_0
                    >= old(self).bindings().len() || old(self).bindings()[old(self).data_of(
                    frame.spec_ref(),
                )->Some_0 as int] is None,
            },
    {
        match self.get_capsule(frame.capsule_ref) {
            Some(cap) => match cap.data_ref {
                Some(data_idx) => self.allocator.get(data_idx),
                None => None,
            },
            None => None,
        }
    }

    /// Releases the payload bound to the frame at `frame_ref`: the frame
    /// loses its binding and the payload slot is freed. Reports whether a
    /// payload slot was actually freed; a stale handle or an unbound frame
    /// changes nothing.
    pub fn unbind_data(&mut self, frame_ref: CapsuleRef) -> (freed: bool)
        requires
            old(self).wf(),
        ensures
            final(self).wf(),
            same_spaces(old(self), final(self)),
            same_styles(old(self), final(self)),
            same_dirty(old(self), final(self)),
            !(old(self).live(frame_ref) && old(self).data_of(frame_ref) is Some) ==> same_tree(
                old(self),
                final(self),
            ) && same_bindings(old(self), final(self)) && !freed,
            old(self).live(frame_ref) && old(self).data_of(frame_ref) is Some ==> {
                let d = old(self).data_of(frame_ref)->Some_0 as int;
                &&& final(self).data_of(frame_ref) is None
                &&& freed == (d < old(self).bindings().len() && old(self).bindings()[d] is Some)
                &&& (freed ==> final(self).bindings() == old(self).bindings().update(
                    d,
                    None::<D>,
                ))
                &&& (!freed ==> final(self).bindings() =~= old(self).bindings())
                &&& final(self).n_slots() == old(self).n_slots()
                &&& (forall|i: int|
                    0 <= i < old(self).n_slots() ==> final(self).gen_of(i) == old(self).gen_of(i))
                &&& (forall|q: CapsuleRef| #[trigger] final(self).live(q) == old(self).live(q))
                &&& (forall|q: CapsuleRef|
                    old(self).live(q) ==> #[trigger] final(self).parent_of(q) == old(
                        self,
                    ).parent_of(q) && final(self).children_of(q) == old(self).children_of(q))
                &&& (forall|q: CapsuleRef|
                    old(self).live(q) && q != frame_ref ==> #[trigger] final(self).data_of(q)
                        == old(self).data_of(q))
                &&& final(self).free_ids() == old(self).free_ids()
            },
    {
        let has_data: bool = match self.get_capsule(frame_ref) {
            Some(cap) => cap.data_ref.is_some(),
            None => false,
        };
        if !has_data {
            return false;
        }
        let ghost caps0 = self.capsules@;
        let id = frame_ref.id;
        let slot = &mut self.capsules[id];
        let data_ref: DataRef;
        match &mut slot.capsule {
            Some(c) => {
                data_ref = match c.data_ref {
                    Some(d) => d,
                    None => {
                        proof {
                            assert(false);
                        }
                        0
                    },
                };
                c.data_ref = None;
            },
            None => {
                proof {
                    assert(false);
                }
                data_ref = 0;
            },
        }
        proof {
            let caps1 = self.capsules@;
            assert forall|q: CapsuleRef| true implies #[trigger] live_in(caps1, q) == live_in(
                caps0,
                q,
            ) by {}
            assert(tree_wf(caps1, self.depth_bound@)) by {
                assert forall|i: int, k: int|
                    occ(caps1, i) && 0 <= k < cap_at(caps1, i).children@.len() implies {
                    let ch = #[trigger] cap_at(caps1, i).children@[k];
                    live_in(caps1, ch) && cap_at(caps1, ch.id as int).parent_ref == Some(
                        ref_at(caps1, i),
                    )
                } by {
                    assert(occ(caps0, i));
                    assert(cap_at(caps0, i).children@ == cap_at(caps1, i).children@);
                }
                assert forall|i: int|
                    occ(caps1, i) && (#[trigger] cap_at(caps1, i).parent_ref) is Some implies {
                    let p = cap_at(caps1, i).parent_ref->Some_0;
                    &&& live_in(caps1, p)
                    &&& cap_at(caps1, p.id as int).children@.contains(ref_at(caps1, i))
                    &&& cap_at(caps1, i).depth@ == cap_at(caps1, p.id as int).depth@ + 1
                } by {
                    let p = cap_at(caps1, i).parent_ref->Some_0;
                    assert(occ(caps0, i));
                    assert(cap_at(caps0, i).parent_ref == cap_at(caps1, i).parent_ref);
                    assert(cap_at(caps0, p.id as int).children@ == cap_at(
                        caps1,
                        p.id as int,
                    ).children@ && cap_at(caps0, p.id as int).depth@ == cap_at(
                        caps1,
                        p.id as int,
                    ).depth@);
                }
                assert forall|i: int, k1: int, k2: int|
                    occ(caps1, i) && 0 <= k1 < k2 < cap_at(caps1, i).children@.len() implies (
                #[trigger] cap_at(caps1, i).children@[k1]).id != (#[trigger] cap_at(
                    caps1,
                    i,
                ).children@[k2]).id by {
                    assert(occ(caps0, i));
                    assert(cap_at(caps0, i).children@ == cap_at(caps1, i).children@);
                }
                assert forall|i: int|
                    occ(caps1, i) implies 0 <= (#[trigger] cap_at(caps1, i).depth@)
                    < self.depth_bound@ by {
                    assert(occ(caps0, i));
                    assert(cap_at(caps0, i).depth@ == cap_at(caps1, i).depth@);
                }
            }
            assert forall|i: int|
                occ(self.capsules@, i) implies {
                let c = #[trigger] cap_at(self.capsules@, i);
                &&& 1 <= c.space_ref < self.spaces@.len()
                &&& self.spaces@[c.space_ref as int] is Some
                &&& c.style_ref < self.styles@.len()
                &&& self.styles@[c.style_ref as int] is Some
            } by {
                assert(occ(caps0, i));
                assert(cap_at(caps0, i).space_ref == cap_at(self.capsules@, i).space_ref);
                assert(cap_at(caps0, i).style_ref == cap_at(self.capsules@, i).style_ref);
            }
            assert forall|i: int, j: int|
                occ(caps1, i) && occ(caps1, j) && i != j implies (#[trigger] cap_at(
                caps1,
                i,
            )).space_ref != (#[trigger] cap_at(caps1, j)).space_ref && cap_at(caps1, i).style_ref
                != cap_at(caps1, j).style_ref by {
                assert(occ(caps0, i) && occ(caps0, j));
                assert(cap_at(caps0, i).space_ref == cap_at(caps1, i).space_ref && cap_at(
                    caps0,
                    i,
                ).style_ref == cap_at(caps1, i).style_ref);
                assert(cap_at(caps0, j).space_ref == cap_at(caps1, j).space_ref && cap_at(
                    caps0,
                    j,
                ).style_ref == cap_at(caps1, j).style_ref);
            }
        }
        self.allocator.dealloc(data_ref)
    }
}

/// What creating a frame does: everything `add_frame_structural` says, and
/// the new frame together with its ancestors joined the dirty set.
pub open spec fn add_frame_post<D>(
    pre: &Root<D>,
    post: &Root<D>,
    nr: CapsuleRef,
    parent_ref: Option<CapsuleRef>,
    data: Option<DataRef>,
) -> bool {
    &&& add_frame_structural(pre, post, nr, parent_ref, data)
    &&& post.dirty(nr)
    &&& forall|q: CapsuleRef| pre.dirty(q) && q != nr ==> #[trigger] post.dirty(q)
    &&& forall|q: CapsuleRef|
        #[trigger] post.dirty(q) ==> pre.dirty(q) || q == nr || post.anc_chain(nr).contains(q)
}

/// The larger of two extents.
pub open spec fn max32(a: u32, b: u32) -> u32 {
    if a >= b {
        a
    } else {
        b
    }
}

/// An optional extent, defaulting to zero while unmeasured.
pub open spec fn opt0(o: Option<u32>) -> u32 {
    if o is Some {
        o->Some_0
    } else {
        0u32
    }
}

/// The declared style of the live frame at `r`.
spec fn style_at(caps: Seq<CapsuleSlot>, styles: Seq<Option<Style>>, r: CapsuleRef) -> Style {
    styles[cap_at(caps, r.id as int).style_ref as int]->Some_0
}

/// What one axis of a frame asks for after measurement: an exact `Pixel`
/// extent as declared; content plus padding and border for the
/// content-driven `Fit` and `Auto`; zero for `Fill` and `Percent`, which
/// resolve only against the parent's offer in the arrange pass.
pub open spec fn spec_desired(s: SizeSpec, content: u32, pad_a: u32, pad_b: u32, border: u32) -> u32 {
    match s {
        SizeSpec::Pixel(v) => v,
        SizeSpec::Fit => sat32(content + pad_a + pad_b + 2 * border),
        SizeSpec::Auto => sat32(content + pad_a + pad_b + 2 * border),
        SizeSpec::Fill => 0u32,
        SizeSpec::Percent(_) => 0u32,
    }
}

/// How many of the first `k` children are in-flow (placed `Auto`).
spec fn spec_inflow_count(
    caps: Seq<CapsuleSlot>,
    styles: Seq<Option<Style>>,
    r: CapsuleRef,
    k: int,
) -> int
    decreases k,
{
    if k <= 0 {
        0
    } else {
        spec_inflow_count(caps, styles, r, k - 1) + (
        if style_at(caps, styles, cap_at(caps, r.id as int).children@[k - 1]).position is Auto {
            1int
        } else {
            0int
        })
    }
}

/// The content accumulation of the measure pass over the first `k`
/// children of `r`: in-flow children contribute their measured size plus
/// margins, summed along the flow axis and maxed across it (maxed on both
/// axes outside `Flex`); out-of-flow children contribute nothing.
spec fn spec_measure_kids(
    caps: Seq<CapsuleSlot>,
    styles: Seq<Option<Style>>,
    bound: int,
    r: CapsuleRef,
    k: int,
) -> (u32, u32)
    decreases bound - cap_at(caps, r.id as int).depth@, 0int, k
        when tree_wf(caps, bound) && live_in(caps, r) && 0 <= k <= cap_at(
            caps,
            r.id as int,
        ).children@.len()
{
    if k <= 0 {
        (0u32, 0u32)
    } else {
        let acc = spec_measure_kids(caps, styles, bound, r, k - 1);
        let c = cap_at(caps, r.id as int).children@[k - 1];
        let cs = style_at(caps, styles, c);
        if cs.position is Auto {
            let m = spec_measure(caps, styles, bound, c);
            let wm = sat32(m.0 + cs.margin.left + cs.margin.right);
            let hm = sat32(m.1 + cs.margin.top + cs.margin.bottom);
            let s = style_at(caps, styles, r);
            if s.layout is Flex && s.flow is Row {
                (sat32(acc.0 + wm), max32(acc.1, hm))
            } else if s.layout is Flex {
                (max32(acc.0, wm), sat32(acc.1 + hm))
            } else {
                (max32(acc.0, wm), max32(acc.1, hm))
            }
        } else {
            acc
        }
    }
}

/// The measured (desired) size of the subtree at `r`: the bottom-up pass
/// of the solver. A childless frame's content is its intrinsic size; with
/// children, content follows `spec_measure_kids`, plus the declared gap
/// between each adjacent pair of in-flow children along a `Flex` frame's
/// flow axis; the axis specifications then map content to the desired size
/// as `spec_desired` says.
spec fn spec_measure(
    caps: Seq<CapsuleSlot>,
    styles: Seq<Option<Style>>,
    bound: int,
    r: CapsuleRef,
) -> (u32, u32)
    decreases bound - cap_at(caps, r.id as int).depth@, 1int, 0int
        when tree_wf(caps, bound) && live_in(caps, r)
{
    let s = style_at(caps, styles, r);
    let kids = cap_at(caps, r.id as int).children@;
    let content = if kids.len() == 0 {
        (opt0(s.intrinsic_width), opt0(s.intrinsic_height))
    } else {
        let acc = spec_measure_kids(caps, styles, bound, r, kids.len() as int);
        let cnt = spec_inflow_count(caps, styles, r, kids.len() as int);
        if s.layout is Flex && s.flow is Row {
            ((if cnt > 0 {
                sat32(acc.0 + s.gap * (cnt - 1))
            } else {
                acc.0
            }), acc.1)
        } else if s.layout is Flex {
            (acc.0, (if cnt > 0 {
                sat32(acc.1 + s.gap * (cnt - 1))
            } else {
                acc.1
            }))
        } else {
            acc
        }
    };
    (
        spec_desired(s.width, content.0, s.padding.left, s.padding.right, s.border.size),
        spec_desired(s.height, content.1, s.padding.top, s.padding.bottom, s.border.size),
    )
}

impl<D> Root<D> {
    /// The measured (desired) size of the subtree at `r`, as the bottom-up
    /// pass of `compute` determines it.
    pub closed spec fn measured_of(&self, r: CapsuleRef) -> (u32, u32) {
        spec_measure(self.capsules@, self.styles@, self.depth_bound@, r)
    }

    /// Measures the subtree at `r` bottom-up: every in-flow child's
    /// measured size plus margins, combined along and across the flow axis,
    /// plus gaps, padding and border, under the frame's axis
    /// specifications.
    #[verifier::rlimit(80)]
    #[verifier::spinoff_prover]
    fn measure(&self, r: CapsuleRef) -> (sz: (u32, u32))
        requires
            self.wf(),
            self.live(r),
        ensures
            sz == spec_measure(self.capsules@, self.styles@, self.depth_bound@, r),
        decreases self.depth_bound@ - self.depth_of(r),
    {
        let ghost caps = self.capsules@;
        let ghost styles = self.styles@;
        let ghost bound = self.depth_bound@;
        let n: usize;
        let s: Style;
        match &self.capsules[r.id].capsule {
            Some(c) => {
                n = c.children.len();
                match self.styles[c.style_ref] {
                    Some(st) => {
                        s = st;
                    },
                    None => {
                        proof {
                            assert(occ(caps, r.id as int));
                            assert(false);
                        }
                        s = Style::default();
                    },
                }
            },
            None => {
                proof {
                    assert(false);
                }
                n = 0;
                s = Style::default();
            },
        }
        proof {
            assert(occ(caps, r.id as int));
            assert(s == style_at(caps, styles, r));
            assert(n as int == cap_at(caps, r.id as int).children@.len());
        }
        let mut aw: u32 = 0;
        let mut ah: u32 = 0;
        let mut cnt: u64 = 0;
        let mut k: usize = 0;
        while k < n
            invariant
                self.wf(),
                self.live(r),
                caps == self.capsules@,
                styles == self.styles@,
                bound == self.depth_bound@,
                s == style_at(caps, styles, r),
                n as int == cap_at(caps, r.id as int).children@.len(),
                k <= n,
                cnt <= k as u64,
                (aw, ah) == spec_measure_kids(caps, styles, bound, r, k as int),
                cnt as int == spec_inflow_count(caps, styles, r, k as int),
            decreases n - k,
        {
            let c: CapsuleRef = match &self.capsules[r.id].capsule {
                Some(cc) => cc.children[k],
                None => {
                    proof {
                        assert(false);
                    }
                    r
                },
            };
            proof {
                assert(cap_at(caps, r.id as int).children@[k as int] == c);
                assert(live_in(caps, c));
                assert(cap_at(caps, c.id as int).parent_ref == Some(ref_at(caps, r.id as int)));
                assert(cap_at(caps, c.id as int).depth@ == cap_at(caps, r.id as int).depth@ + 1);
            }
            let cs: Style = match self.get_style(c) {
                Some(st) => st,
                None => {
                    proof {
                        assert(self.style_of(c) == Some(style_at(caps, styles, c)));
                        assert(false);
                    }
                    Style::default()
                },
            };
            proof {
                assert(self.style_of(c) == Some(style_at(caps, styles, c)));
                assert(cs == style_at(caps, styles, c));
            }
            let m = self.measure(c);
            let is_auto_pos = match cs.position {
                Position::Auto => true,
                Position::Fixed { .. } => false,
            };
            if is_auto_pos {
                let wm64: u64 = m.0 as u64 + cs.margin.left as u64 + cs.margin.right as u64;
                let wm: u32 = if wm64 > u32::MAX as u64 {
                    u32::MAX
                } else {
                    wm64 as u32
                };
                let hm64: u64 = m.1 as u64 + cs.margin.top as u64 + cs.margin.bottom as u64;
                let hm: u32 = if hm64 > u32::MAX as u64 {
                    u32::MAX
                } else {
                    hm64 as u32
                };
                proof {
                    assert(wm == sat32(m.0 + cs.margin.left + cs.margin.right));
                    assert(hm == sat32(m.1 + cs.margin.top + cs.margin.bottom));
                }
                let is_flex = match s.layout {
                    LayoutStrategy::Flex => true,
                    _ => false,
                };
                let is_row = match s.flow {
                    Direction::Row => true,
                    Direction::Column => false,
                };
                if is_flex && is_row {
                    let t: u64 = aw as u64 + wm as u64;
                    aw = if t > u32::MAX as u64 {
                        u32::MAX
                    } else {
                        t as u32
                    };
                    ah = if ah >= hm {
                        ah
                    } else {
                        hm
                    };
                } else if is_flex {
                    aw = if aw >= wm {
                        aw
                    } else {
                        wm
                    };
                    let t: u64 = ah as u64 + hm as u64;
                    ah = if t > u32::MAX as u64 {
                        u32::MAX
                    } else {
                        t as u32
                    };
                } else {
                    aw = if aw >= wm {
                        aw
                    } else {
                        wm
                    };
                    ah = if ah >= hm {
                        ah
                    } else {
                        hm
                    };
                }
                cnt = cnt + 1;
            }
            k += 1;
        }
        let content_w: u32;
        let content_h: u32;
        if n == 0 {
            content_w = match s.intrinsic_width {
                Some(v) => v,
                None => 0,
            };
            content_h = match s.intrinsic_height {
                Some(v) => v,
                None => 0,
            };
        } else {
            let is_flex = match s.layout {
                LayoutStrategy::Flex => true,
                _ => false,
            };
            let is_row = match s.flow {
                Direction::Row => true,
                Direction::Column => false,
            };
            if is_flex && is_row && cnt > 0 {
                proof {
                    assert(s.gap as int * (cnt - 1) as int <= (u32::MAX as int) * (u64::MAX as int)) by (nonlinear_arith)
                        requires
                            s.gap <= u32::MAX,
                            0 < cnt <= u64::MAX,
                    ;
                }
                let g: u128 = (s.gap as u128) * ((cnt - 1) as u128);
                let t: u128 = aw as u128 + g;
                content_w = if t > u32::MAX as u128 {
                    u32::MAX
                } else {
                    t as u32
                };
                content_h = ah;
            } else if is_flex && !is_row && cnt > 0 {
                proof {
                    assert(s.gap as int * (cnt - 1) as int <= (u32::MAX as int) * (u64::MAX as int)) by (nonlinear_arith)
                        requires
                            s.gap <= u32::MAX,
                            0 < cnt <= u64::MAX,
                    ;
                }
                let g: u128 = (s.gap as u128) * ((cnt - 1) as u128);
                let t: u128 = ah as u128 + g;
                content_w = aw;
                content_h = if t > u32::MAX as u128 {
                    u32::MAX
                } else {
                    t as u32
                };
            } else {
                content_w = aw;
                content_h = ah;
            }
        }
        let dw = desired_extent(&s.width, content_w, s.padding.left, s.padding.right, s.border.size);
        let dh = desired_extent(&s.height, content_h, s.padding.top, s.padding.bottom, s.border.size);
        (dw, dh)
    }

    /// The measured (desired) size of the subtree at `frame_ref`, from the
    /// bottom-up measure pass; nothing for a stale handle.
    pub fn measure_frame(&self, frame_ref: CapsuleRef) -> (r: Option<(u32, u32)>)
        requires
            self.wf(),
        ensures
            match r {
                Some(sz) => self.live(frame_ref) && sz == self.measured_of(frame_ref),
                None => !self.live(frame_ref),
            },
    {
        if self.get_capsule(frame_ref).is_some() {
            Some(self.measure(frame_ref))
        } else {
            None
        }
    }
}

/// One axis of the measure pass's final step, as `spec_desired` states it.
fn desired_extent(s: &SizeSpec, content: u32, pad_a: u32, pad_b: u32, border: u32) -> (r: u32)
    ensures
        r == spec_desired(*s, content, pad_a, pad_b, border),
{
    match s {
        SizeSpec::Pixel(v) => *v,
        SizeSpec::Fit | SizeSpec::Auto => {
            let t: u64 = content as u64 + pad_a as u64 + pad_b as u64 + 2 * (border as u64);
            if t > u32::MAX as u64 {
                u32::MAX
            } else {
                t as u32
            }
        },
        SizeSpec::Fill | SizeSpec::Percent(_) => 0,
    }
}

} // verus!
