//! The surfaces of the overlay: at most one for each display, found by the
//! display's number or by the handle of the surface itself.
//!
//! The manager decides and remembers; it creates nothing. `reconcile` says
//! whether a display needs a surface, the caller creates one and hands its
//! handle to `adopt`. Events about a surface come in by its handle, and the
//! answers say what the caller has to draw or to release.

use vstd::prelude::*;
use std::collections::HashMap;
use crate::config::{Config, ConfigView};
use crate::display::{passes_filter, preferred_logical_size, DisplayDescriptor, DisplayView};
use crate::frame::{geometry_of, Geometry, GeometryView};

verus! {

/// What is remembered of the surface on one display.
#[derive(Debug, Clone, Copy, PartialEq, Eq)]
pub struct SurfaceState {
    /// The number by which the compositor knows the surface.
    pub handle: u32,
    /// Buffer pixels per logical pixel, at least one.
    pub scale: i32,
    /// Size in logical pixels, as last drawn or as first assumed.
    pub logical_size: (u32, u32),
}

/// The surface that a display needs, as plain values.
pub struct PlanView {
    pub display_id: u32,
    /// The scale to give the surface's buffers, at least one.
    pub buffer_scale: i32,
    /// The logical size to assume until the compositor names one.
    pub logical_size: (u32, u32),
}

/// The surface that a display needs. Only `SurfaceManager::reconcile` makes
/// a plan, so there is one only for a display that the list of wanted names
/// lets through.
#[derive(Debug, Clone, Copy, PartialEq, Eq)]
pub struct SurfacePlan {
    display_id: u32,
    buffer_scale: i32,
    logical_size: (u32, u32),
}

impl View for SurfacePlan {
    type V = PlanView;

    closed spec fn view(&self) -> PlanView {
        PlanView {
            display_id: self.display_id,
            buffer_scale: self.buffer_scale,
            logical_size: self.logical_size,
        }
    }
}

impl SurfacePlan {
    /// The display that needs the surface.
    pub fn display_id(&self) -> (id: u32)
        ensures
            id == self@.display_id,
    {
        self.display_id
    }

    /// The scale to give the surface's buffers.
    pub fn buffer_scale(&self) -> (scale: i32)
        ensures
            scale == self@.buffer_scale,
    {
        self.buffer_scale
    }

    /// The logical size to assume until the compositor names one.
    pub fn logical_size(&self) -> (size: (u32, u32))
        ensures
            size == self@.logical_size,
    {
        self.logical_size
    }
}

/// A frame to draw: on which display, and how large.
#[derive(Debug, Clone, Copy)]
pub struct RenderRequest {
    pub display_id: u32,
    pub geometry: Geometry,
}

/// Why there is nothing to draw for a configure event.
#[derive(Debug, Clone, Copy, PartialEq, Eq, Structural)]
pub enum ConfigureError {
    /// No surface has this handle.
    UnknownSurface,
    /// The frame would be larger than the display protocol can carry.
    TooLarge,
}

/// A scale, counted as one where it is less.
pub open spec fn at_least_one(scale: i32) -> i32 {
    if scale < 1 {
        1
    } else {
        scale
    }
}

/// The surface of each display that has one.
pub type Surfaces = Map<u32, SurfaceState>;

/// Display `id` has a surface, and its handle is `handle`.
pub open spec fn shows(surfaces: Surfaces, id: u32, handle: u32) -> bool {
    surfaces.contains_key(id) && surfaces[id].handle == handle
}

/// Every scale is at least one, and no two displays share a surface.
pub open spec fn well_formed(surfaces: Surfaces) -> bool {
    &&& surfaces.dom().finite()
    &&& forall|id: u32| #[trigger] surfaces.contains_key(id) ==> surfaces[id].scale >= 1
    &&& forall|a: u32, b: u32, handle: u32|
        #![trigger shows(surfaces, a, handle), shows(surfaces, b, handle)]
        shows(surfaces, a, handle) && shows(surfaces, b, handle) ==> a == b
}

/// The display whose surface has this handle.
pub open spec fn owner_of(surfaces: Surfaces, handle: u32) -> Option<u32> {
    if exists|id: u32| shows(surfaces, id, handle) {
        Some(choose|id: u32| shows(surfaces, id, handle))
    } else {
        None
    }
}

/// The state of a manager: its settings and the surface of each display
/// that has one.
pub struct ManagerView {
    pub config: ConfigView,
    pub surfaces: Surfaces,
}

impl ManagerView {
    /// Every scale is at least one, and no two displays share a surface.
    pub open spec fn wf(self) -> bool {
        well_formed(self.surfaces)
    }

    /// The display whose surface has this handle.
    pub open spec fn owner(self, handle: u32) -> Option<u32> {
        owner_of(self.surfaces, handle)
    }

    /// This state with `state` as the surface of display `id`.
    pub open spec fn with(self, id: u32, state: SurfaceState) -> ManagerView {
        ManagerView { surfaces: self.surfaces.insert(id, state), ..self }
    }

    /// The surface that `display` needs: none where the list of wanted
    /// displays keeps it out, and none where it has a surface already.
    pub open spec fn plan(self, display: DisplayView) -> Option<PlanView> {
        if display.wanted_by(self.config.outputs) && !self.surfaces.contains_key(display.id) {
            Some(
                PlanView {
                    display_id: display.id,
                    buffer_scale: at_least_one(display.scale),
                    logical_size: display.preferred_size(),
                },
            )
        } else {
            None
        }
    }

    /// Whether a new surface with this handle can be taken in for the
    /// display of `plan`: the display has none yet, and the handle is not
    /// in use.
    pub open spec fn accepts(self, plan: PlanView, handle: u32) -> bool {
        !self.surfaces.contains_key(plan.display_id) && self.owner(handle) is None
    }

    /// The state after the surface for `plan` was created with `handle`.
    pub open spec fn adopted(self, plan: PlanView, handle: u32) -> ManagerView {
        if self.accepts(plan, handle) {
            self.with(
                plan.display_id,
                SurfaceState {
                    handle,
                    scale: at_least_one(plan.buffer_scale),
                    logical_size: plan.logical_size,
                },
            )
        } else {
            self
        }
    }

    /// The state after `display` was announced or changed, where a surface
    /// that it turned out to need was created with `handle`.
    pub open spec fn reconciled(self, display: DisplayView, handle: u32) -> ManagerView {
        match self.plan(display) {
            Some(plan) => self.adopted(plan, handle),
            None => self,
        }
    }

    /// The state after display `id` went away.
    pub open spec fn without_display(self, id: u32) -> ManagerView {
        ManagerView { surfaces: self.surfaces.remove(id), ..self }
    }

    /// The state after the compositor closed the surface `handle`.
    pub open spec fn without_surface(self, handle: u32) -> ManagerView {
        match self.owner(handle) {
            Some(id) => self.without_display(id),
            None => self,
        }
    }

    /// The state after the surface `handle` was given a new scale.
    pub open spec fn rescaled(self, handle: u32, scale: i32) -> ManagerView {
        match self.owner(handle) {
            Some(id) => self.with(
                id,
                SurfaceState { scale: at_least_one(scale), ..self.surfaces[id] },
            ),
            None => self,
        }
    }

    /// The state after a frame of `geometry` was drawn for display `id`.
    pub open spec fn drawn(self, id: u32, geometry: GeometryView) -> ManagerView {
        if self.surfaces.contains_key(id) {
            self.with(
                id,
                SurfaceState {
                    logical_size: (geometry.logical_width, geometry.logical_height),
                    ..self.surfaces[id]
                },
            )
        } else {
            self
        }
    }

    /// The display and the geometry of the frame that a configure event for
    /// the surface `handle` asks for.
    pub open spec fn frame_for(self, handle: u32, requested: (u32, u32)) -> Result<
        (u32, GeometryView),
        ConfigureError,
    > {
        match self.owner(handle) {
            None => Err(ConfigureError::UnknownSurface),
            Some(id) => match geometry_of(
                self.surfaces[id].logical_size,
                self.surfaces[id].scale,
                requested,
            ) {
                Some(geometry) => Ok((id, geometry)),
                None => Err(ConfigureError::TooLarge),
            },
        }
    }
}

/// Among well-formed surfaces the owner of a handle is the one display that
/// shows it.
pub proof fn lemma_owner(surfaces: Surfaces, id: u32, handle: u32)
    requires
        well_formed(surfaces),
        shows(surfaces, id, handle),
    ensures
        owner_of(surfaces, handle) == Some(id),
{
    let chosen = choose|id: u32| shows(surfaces, id, handle);
    assert(shows(surfaces, chosen, handle));
}

/// Taking a display away keeps the surfaces well formed.
proof fn lemma_removal(surfaces: Surfaces, id: u32)
    requires
        well_formed(surfaces),
    ensures
        well_formed(surfaces.remove(id)),
{
    let after = surfaces.remove(id);
    assert forall|a: u32, b: u32, h: u32| shows(after, a, h) && shows(after, b, h) implies a
        == b by {
        assert(shows(surfaces, a, h) && shows(surfaces, b, h));
    }
}

/// Putting a state in for a display keeps the surfaces well formed, where
/// the handle of that state is the display's own or belongs to none.
proof fn lemma_insertion(surfaces: Surfaces, id: u32, next: SurfaceState)
    requires
        well_formed(surfaces),
        next.scale >= 1,
        shows(surfaces, id, next.handle) || owner_of(surfaces, next.handle) is None,
    ensures
        well_formed(surfaces.insert(id, next)),
{
    let after = surfaces.insert(id, next);
    assert forall|a: u32, b: u32, h: u32| shows(after, a, h) && shows(after, b, h) implies a
        == b by {
        if a != id {
            assert(shows(surfaces, a, h));
        }
        if b != id {
            assert(shows(surfaces, b, h));
        }
    }
}

/// Every step keeps the state well formed.
pub proof fn lemma_steps_keep_well_formed(
    state: ManagerView,
    plan: PlanView,
    handle: u32,
    id: u32,
    scale: i32,
    geometry: GeometryView,
)
    requires
        state.wf(),
    ensures
        state.adopted(plan, handle).wf(),
        state.without_display(id).wf(),
        state.without_surface(handle).wf(),
        state.rescaled(handle, scale).wf(),
        state.drawn(id, geometry).wf(),
{
    let surfaces = state.surfaces;
    if state.accepts(plan, handle) {
        lemma_insertion(
            surfaces,
            plan.display_id,
            SurfaceState {
                handle,
                scale: at_least_one(plan.buffer_scale),
                logical_size: plan.logical_size,
            },
        );
    }
    lemma_removal(surfaces, id);
    if let Some(owner) = state.owner(handle) {
        lemma_removal(surfaces, owner);
        lemma_insertion(
            surfaces,
            owner,
            SurfaceState { scale: at_least_one(scale), ..surfaces[owner] },
        );
    }
    if surfaces.contains_key(id) {
        lemma_insertion(
            surfaces,
            id,
            SurfaceState {
                logical_size: (geometry.logical_width, geometry.logical_height),
                ..surfaces[id]
            },
        );
    }
}

/// A display that the list of wanted names keeps out never gets a surface:
/// there is no plan for it, and announcing it leaves the state as it was.
pub proof fn lemma_unwanted_display_is_ignored(
    state: ManagerView,
    display: DisplayView,
    handle: u32,
)
    requires
        !display.wanted_by(state.config.outputs),
    ensures
        state.plan(display) is None,
        state.reconciled(display, handle) == state,
{
}

/// Announcing a display a second time changes nothing: once it has a
/// surface it needs none, and it keeps the one it has.
pub proof fn lemma_reconcile_is_idempotent(
    state: ManagerView,
    display: DisplayView,
    first: u32,
    second: u32,
)
    requires
        state.wf(),
    ensures
        ({
            let once = state.reconciled(display, first);
            &&& once.surfaces.contains_key(display.id) ==> once.plan(display) is None
            &&& once.surfaces.contains_key(display.id) ==> once.reconciled(display, second) == once
            &&& state.plan(display) is Some && state.owner(first) is None
                ==> once.surfaces.contains_key(display.id)
        }),
{
}

/// After a display went away it has no surface, and every other display
/// keeps its own. Taking it away once more changes nothing, and neither
/// does closing the surface it had.
pub proof fn lemma_removed_display_has_no_surface(state: ManagerView, id: u32)
    requires
        state.wf(),
    ensures
        ({
            let after = state.without_display(id);
            &&& !after.surfaces.contains_key(id)
            &&& forall|other: u32|
                other != id ==> after.surfaces.contains_key(other) == state.surfaces.contains_key(
                    other,
                ) && after.surfaces[other] == state.surfaces[other]
            &&& after.without_display(id) == after
            &&& state.surfaces.contains_key(id) ==> after.without_surface(
                state.surfaces[id].handle,
            ) == after
        }),
{
    let after = state.without_display(id);
    assert(after.surfaces.remove(id) =~= after.surfaces);
    if state.surfaces.contains_key(id) {
        let handle = state.surfaces[id].handle;
        assert forall|other: u32| !shows(after.surfaces, other, handle) by {
            if shows(after.surfaces, other, handle) {
                assert(shows(state.surfaces, other, handle));
                assert(shows(state.surfaces, id, handle));
            }
        }
    }
}

/// Closing a surface and taking its display away come to the same.
pub proof fn lemma_close_is_removal(state: ManagerView, id: u32)
    requires
        state.wf(),
        state.surfaces.contains_key(id),
    ensures
        state.without_surface(state.surfaces[id].handle) == state.without_display(id),
{
    lemma_owner(state.surfaces, id, state.surfaces[id].handle);
}

/// The surfaces by display, and the displays by the handle of their
/// surface.
struct Tables {
    surfaces: HashMap<u32, SurfaceState>,
    owners: HashMap<u32, u32>,
}

impl Tables {
    /// The surfaces are well formed and the index by handle agrees with
    /// them.
    spec fn inv(&self) -> bool {
        &&& well_formed(self.surfaces@)
        &&& forall|handle: u32| #[trigger]
            self.owners@.contains_key(handle) ==> shows(
                self.surfaces@,
                self.owners@[handle],
                handle,
            )
        &&& forall|id: u32| #[trigger]
            self.surfaces@.contains_key(id) ==> self.owners@.contains_key(
                self.surfaces@[id].handle,
            ) && self.owners@[self.surfaces@[id].handle] == id
    }

    /// The index by handle gives the owner of every handle.
    proof fn lemma_index(&self, handle: u32)
        requires
            self.inv(),
        ensures
            owner_of(self.surfaces@, handle) == (if self.owners@.contains_key(handle) {
                Some(self.owners@[handle])
            } else {
                None
            }),
    {
        if self.owners@.contains_key(handle) {
            lemma_owner(self.surfaces@, self.owners@[handle], handle);
        } else {
            assert forall|id: u32| !shows(self.surfaces@, id, handle) by {
                if shows(self.surfaces@, id, handle) {
                    assert(self.surfaces@.contains_key(id));
                }
            }
        }
    }

    fn new() -> (tables: Tables)
        ensures
            tables.inv(),
            tables.surfaces@ == Surfaces::empty(),
    {
        Tables { surfaces: HashMap::new(), owners: HashMap::new() }
    }

    /// Puts `state` in as the surface of display `id`, which has none or
    /// has one with the same handle.
    fn put(&mut self, id: u32, state: SurfaceState)
        requires
            old(self).inv(),
            state.scale >= 1,
            shows(old(self).surfaces@, id, state.handle) || (!old(self).surfaces@.contains_key(id)
                && !old(self).owners@.contains_key(state.handle)),
        ensures
            final(self).inv(),
            final(self).surfaces@ == old(self).surfaces@.insert(id, state),
    {
        proof {
            self.lemma_index(state.handle);
            lemma_insertion(self.surfaces@, id, state);
        }
        self.surfaces.insert(id, state);
        self.owners.insert(state.handle, id);
        proof {
            assert forall|h: u32| #[trigger] self.owners@.contains_key(h) implies shows(
                self.surfaces@,
                self.owners@[h],
                h,
            ) by {
                if h != state.handle {
                    assert(shows(old(self).surfaces@, old(self).owners@[h], h));
                }
            }
        }
    }

    /// Takes out the surface of display `id`, if it has one.
    fn remove(&mut self, id: u32) -> (removed: Option<SurfaceState>)
        requires
            old(self).inv(),
        ensures
            final(self).inv(),
            final(self).surfaces@ == old(self).surfaces@.remove(id),
            removed == (if old(self).surfaces@.contains_key(id) {
                Some(old(self).surfaces@[id])
            } else {
                None
            }),
    {
        proof {
            lemma_removal(self.surfaces@, id);
        }
        let removed = self.surfaces.remove(&id);
        match removed {
            None => {
                assert(self.surfaces@ =~= old(self).surfaces@);
            },
            Some(state) => {
                self.owners.remove(&state.handle);
                proof {
                    assert forall|h: u32| #[trigger] self.owners@.contains_key(h) implies shows(
                        self.surfaces@,
                        self.owners@[h],
                        h,
                    ) by {
                        assert(shows(old(self).surfaces@, old(self).owners@[h], h));
                    }
                }
            },
        }
        removed
    }
}

/// The surfaces of the overlay and the settings they are drawn with.
pub struct SurfaceManager {
    config: Config,
    tables: Tables,
}

impl View for SurfaceManager {
    type V = ManagerView;

    closed spec fn view(&self) -> ManagerView {
        ManagerView { config: self.config@, surfaces: self.tables.surfaces@ }
    }
}

impl SurfaceManager {
    #[verifier::type_invariant]
    spec fn sound(self) -> bool {
        self.tables.inv()
    }

    /// A manager without surfaces.
    pub fn new(config: Config) -> (manager: SurfaceManager)
        ensures
            manager@.wf(),
            manager@.config == config@,
            manager@.surfaces == Surfaces::empty(),
    {
        SurfaceManager { config, tables: Tables::new() }
    }

    /// The settings.
    pub fn config(&self) -> (config: &Config)
        ensures
            config@ == self@.config,
    {
        &self.config
    }

    /// How many displays have a surface.
    pub fn len(&self) -> (count: usize)
        ensures
            count == self@.surfaces.len(),
    {
        self.tables.surfaces.len()
    }

    /// The surface of display `id`, if it has one.
    pub fn surface(&self, id: u32) -> (state: Option<SurfaceState>)
        ensures
            self@.wf(),
            state == (if self@.surfaces.contains_key(id) {
                Some(self@.surfaces[id])
            } else {
                None
            }),
    {
        proof {
            use_type_invariant(self);
        }
        match self.tables.surfaces.get(&id) {
            Some(state) => Some(*state),
            None => None,
        }
    }

    /// The display whose surface has this handle.
    pub fn owner(&self, handle: u32) -> (id: Option<u32>)
        ensures
            self@.wf(),
            id == self@.owner(handle),
    {
        proof {
            use_type_invariant(self);
            self.tables.lemma_index(handle);
        }
        match self.tables.owners.get(&handle) {
            Some(id) => Some(*id),
            None => None,
        }
    }

    /// Says which surface `display` needs, if any. To be called when a
    /// display is announced and whenever one changes.
    pub fn reconcile(&self, display: &DisplayDescriptor) -> (plan: Option<SurfacePlan>)
        ensures
            match plan {
                Some(p) => self@.plan(display@) == Some(p@),
                None => self@.plan(display@) is None,
            },
    {
        if !passes_filter(&self.config.outputs, &display.name) {
            return None;
        }
        if self.tables.surfaces.contains_key(&display.id) {
            return None;
        }
        Some(
            SurfacePlan {
                display_id: display.id,
                buffer_scale: if display.scale < 1 {
                    1
                } else {
                    display.scale
                },
                logical_size: preferred_logical_size(display),
            },
        )
    }

    /// Takes in the surface that was created for `plan`. Nothing changes,
    /// and the result is `false`, where the display has a surface already
    /// or the handle is in use.
    pub fn adopt(&mut self, plan: SurfacePlan, handle: u32) -> (adopted: bool)
        ensures
            final(self)@.wf(),
            adopted == old(self)@.accepts(plan@, handle),
            final(self)@ == old(self)@.adopted(plan@, handle),
    {
        proof {
            use_type_invariant(&*self);
            self.tables.lemma_index(handle);
        }
        if self.tables.surfaces.contains_key(&plan.display_id) || self.tables.owners.contains_key(
            &handle,
        ) {
            return false;
        }
        let state = SurfaceState {
            handle,
            scale: if plan.buffer_scale < 1 {
                1
            } else {
                plan.buffer_scale
            },
            logical_size: plan.logical_size,
        };
        self.put(plan.display_id, state);
        true
    }

    /// A display went away: forgets its surface and hands back what was
    /// known of it, for the caller to release. Nothing changes where the
    /// display has no surface.
    pub fn on_display_removed(&mut self, id: u32) -> (removed: Option<SurfaceState>)
        ensures
            final(self)@.wf(),
            final(self)@ == old(self)@.without_display(id),
            removed == (if old(self)@.surfaces.contains_key(id) {
                Some(old(self)@.surfaces[id])
            } else {
                None
            }),
    {
        proof {
            use_type_invariant(&*self);
        }
        let mut tables = Tables::new();
        std::mem::swap(&mut tables, &mut self.tables);
        let removed = tables.remove(id);
        self.tables = tables;
        removed
    }

    /// The compositor closed a surface: forgets it and says which display
    /// it was on. Nothing changes where no surface has this handle.
    pub fn on_surface_closed(&mut self, handle: u32) -> (closed: Option<u32>)
        ensures
            final(self)@.wf(),
            closed == old(self)@.owner(handle),
            final(self)@ == old(self)@.without_surface(handle),
    {
        match self.owner(handle) {
            Some(id) => {
                self.on_display_removed(id);
                Some(id)
            },
            None => None,
        }
    }

    /// A surface was given a new scale: remembers it, counted as one where
    /// it is less. The result is the display of the surface.
    pub fn on_scale_changed(&mut self, handle: u32, new_scale: i32) -> (changed: Option<u32>)
        ensures
            final(self)@.wf(),
            changed == old(self)@.owner(handle),
            final(self)@ == old(self)@.rescaled(handle, new_scale),
    {
        let (id, state) = match self.find(handle) {
            Some(found) => found,
            None => {
                return None;
            },
        };
        let next = SurfaceState {
            scale: if new_scale < 1 {
                1
            } else {
                new_scale
            },
            ..state
        };
        self.put(id, next);
        Some(id)
    }

    /// The compositor asks for a frame of the surface `handle`: works out
    /// what to draw. Nothing is changed yet; see `on_frame_drawn`.
    pub fn on_configure(&self, handle: u32, requested: (u32, u32)) -> (request: Result<
        RenderRequest,
        ConfigureError,
    >)
        ensures
            match request {
                Ok(r) => self@.frame_for(handle, requested) == Ok::<
                    (u32, GeometryView),
                    ConfigureError,
                >((r.display_id, r.geometry@)),
                Err(e) => self@.frame_for(handle, requested) == Err::<
                    (u32, GeometryView),
                    ConfigureError,
                >(e),
            },
    {
        let (id, state) = match self.find(handle) {
            Some(found) => found,
            None => {
                return Err(ConfigureError::UnknownSurface);
            },
        };
        match Geometry::resolve(state.logical_size, state.scale, requested) {
            Some(geometry) => Ok(RenderRequest { display_id: id, geometry }),
            None => Err(ConfigureError::TooLarge),
        }
    }

    /// A frame was drawn for display `id`: remembers its logical size for
    /// the frames to come.
    pub fn on_frame_drawn(&mut self, id: u32, geometry: &Geometry)
        ensures
            final(self)@.wf(),
            final(self)@ == old(self)@.drawn(id, geometry@),
    {
        let state = match self.surface(id) {
            Some(state) => state,
            None => {
                return ;
            },
        };
        let next = SurfaceState {
            logical_size: (geometry.logical_width(), geometry.logical_height()),
            ..state
        };
        self.put(id, next);
    }

    /// The display and the state of the surface with this handle.
    fn find(&self, handle: u32) -> (found: Option<(u32, SurfaceState)>)
        ensures
            self@.wf(),
            match found {
                Some((id, state)) => self@.owner(handle) == Some(id) && shows(
                    self@.surfaces,
                    id,
                    handle,
                ) && state == self@.surfaces[id],
                None => self@.owner(handle) is None,
            },
    {
        proof {
            use_type_invariant(self);
            self.tables.lemma_index(handle);
        }
        let id = match self.tables.owners.get(&handle) {
            Some(id) => *id,
            None => {
                return None;
            },
        };
        match self.tables.surfaces.get(&id) {
            Some(state) => Some((id, *state)),
            None => None,
        }
    }

    /// Puts `state` in as the surface of display `id`, which has none or
    /// has one with the same handle.
    fn put(&mut self, id: u32, state: SurfaceState)
        requires
            state.scale >= 1,
            shows(old(self)@.surfaces, id, state.handle) || (!old(self)@.surfaces.contains_key(id)
                && old(self)@.owner(state.handle) is None),
        ensures
            final(self)@.wf(),
            final(self)@ == old(self)@.with(id, state),
    {
        proof {
            use_type_invariant(&*self);
            self.tables.lemma_index(state.handle);
        }
        let mut tables = Tables::new();
        std::mem::swap(&mut tables, &mut self.tables);
        tables.put(id, state);
        self.tables = tables;
    }
}

} // verus!
