//! Entity store and type-keyed component columns.
//!
//! Entity ids are plain indices into per-kind columns.  The store keeps one
//! column per known component kind, created lazily on first attachment, and
//! recycles released ids smallest-first so that allocation order is
//! deterministic.
use vstd::prelude::*;

use crate::Collider;
use crate::Coordinates;

verus! {

/// Operations shared by every component column: a column is a dense sequence
/// with one present-or-absent slot per allocated entity id.
pub trait ComponentVec: Sized {
    type Item;

    /// The column contents, one optional component per entity id.
    spec fn col(&self) -> Seq<Option<Self::Item>>;

    /// Appends an "absent" slot for a newly allocated entity id.
    fn push_none(&mut self)
        ensures
            final(self).col() == old(self).col().push(None::<Self::Item>),
    ;

    /// Clears the slot of entity `index` to "absent".
    fn set_none(&mut self, index: usize)
        requires
            index < old(self).col().len(),
        ensures
            final(self).col() == old(self).col().update(index as int, None::<Self::Item>),
    ;
}

impl<T> ComponentVec for Vec<Option<T>> {
    type Item = T;

    open spec fn col(&self) -> Seq<Option<T>> {
        self@
    }

    fn push_none(&mut self) {
        self.push(None);
    }

    fn set_none(&mut self, index: usize) {
        self[index] = None;
    }
}

/// Mathematical model of an `EContainer`: the entity capacity, the released
/// ids pending reuse, and one optional column per component kind.
pub ghost struct StoreView {
    pub count: nat,
    pub free: Seq<usize>,
    pub colliders: Option<Seq<Option<Collider>>>,
    pub coordinates: Option<Seq<Option<Coordinates>>>,
    pub markers: Option<Seq<Option<i32>>>,
}

/// One column is well formed when, if registered, it has exactly one slot
/// per allocated entity id.
pub open spec fn col_ok<T>(col: Option<Seq<Option<T>>>, count: nat) -> bool {
    match col {
        Some(s) => s.len() == count,
        None => true,
    }
}

/// A registered column grows by an absent slot; an unregistered one stays
/// unregistered.
pub open spec fn grow_col<T>(col: Option<Seq<Option<T>>>) -> Option<Seq<Option<T>>> {
    match col {
        Some(s) => Some(s.push(None)),
        None => None,
    }
}

/// Clears the slot of `entity` in a column, if the column is registered.
pub open spec fn clear_col<T>(col: Option<Seq<Option<T>>>, entity: usize) -> Option<Seq<Option<T>>> {
    match col {
        Some(s) => Some(s.update(entity as int, None)),
        None => None,
    }
}

/// Column contents after attaching `value` to `entity`: the column is
/// created all-absent at the current capacity if this is the kind's first
/// attachment.
pub open spec fn attach_col<T>(
    col: Option<Seq<Option<T>>>,
    count: nat,
    entity: usize,
    value: T,
) -> Seq<Option<T>> {
    match col {
        Some(s) => s.update(entity as int, Some(value)),
        None => Seq::new(count, |i: int| None).update(entity as int, Some(value)),
    }
}

/// Column contents after detaching `entity`'s component: a no-op when the
/// kind has no column yet.
pub open spec fn detach_col<T>(col: Option<Seq<Option<T>>>, entity: usize) -> Option<
    Seq<Option<T>>,
> {
    match col {
        Some(s) => Some(s.update(entity as int, None)),
        None => None,
    }
}

impl StoreView {
    /// The free list is kept strictly descending, so its last element is the
    /// smallest released id; every free id lies below the capacity.
    pub open spec fn free_ok(self) -> bool {
        &&& forall|i: int, j: int|
            #![trigger self.free[i], self.free[j]]
            0 <= i < j < self.free.len() ==> self.free[i] > self.free[j]
        &&& forall|i: int| 0 <= i < self.free.len() ==> #[trigger] self.free[i] < self.count
    }

    /// Store well-formedness: every registered column is capacity-sized and
    /// the free list is a strictly descending sequence of valid ids.
    pub open spec fn wf(self) -> bool {
        &&& col_ok(self.colliders, self.count)
        &&& col_ok(self.coordinates, self.count)
        &&& col_ok(self.markers, self.count)
        &&& self.free_ok()
    }

    /// The store model after allocating a fresh id at the end: capacity goes
    /// up by one and every registered column gains an absent slot.
    pub open spec fn grown(self) -> StoreView {
        StoreView {
            count: self.count + 1,
            free: self.free,
            colliders: grow_col(self.colliders),
            coordinates: grow_col(self.coordinates),
            markers: grow_col(self.markers),
        }
    }

    /// The store model after releasing `entity`: every registered column's
    /// slot is cleared and the id joins the free list at position `at`.
    pub open spec fn released(self, entity: usize, at: int) -> StoreView {
        StoreView {
            count: self.count,
            free: self.free.insert(at, entity),
            colliders: clear_col(self.colliders, entity),
            coordinates: clear_col(self.coordinates, entity),
            markers: clear_col(self.markers, entity),
        }
    }
}

/// Entity store: owns entity identity, the released-id free list and the
/// per-kind component columns.
pub struct EContainer {
    pub colliders: Option<Vec<Option<Collider>>>,
    pub coordinates: Option<Vec<Option<Coordinates>>>,
    pub markers: Option<Vec<Option<i32>>>,
    pub free_entities: Vec<usize>,
    pub entity_count: usize,
}

/// A registered column viewed as its contents.
pub open spec fn view_col<T>(c: Option<Vec<Option<T>>>) -> Option<Seq<Option<T>>> {
    match c {
        Some(v) => Some(v@),
        None => None,
    }
}

impl View for EContainer {
    type V = StoreView;

    open spec fn view(&self) -> StoreView {
        StoreView {
            count: self.entity_count as nat,
            free: self.free_entities@,
            colliders: view_col(self.colliders),
            coordinates: view_col(self.coordinates),
            markers: view_col(self.markers),
        }
    }
}

/// A component kind the store can keep a column for.  Each impl routes the
/// kind to its own strongly-typed column, replacing the dynamic downcast
/// registry of a garbage-collected design with a compile-time one.
pub trait Component: Sized {
    /// This kind's column in the store model, `None` until first attachment.
    spec fn column(v: StoreView) -> Option<Seq<Option<Self>>>;

    /// The store model with this kind's column replaced and everything else
    /// unchanged.
    spec fn with_column(v: StoreView, col: Option<Seq<Option<Self>>>) -> StoreView;

    /// `column` and `with_column` are a field and its update: writing the
    /// column changes nothing else, and reading it back gives the write.
    proof fn column_algebra(v: StoreView, col: Option<Seq<Option<Self>>>)
        ensures
            Self::column(Self::with_column(v, col)) == col,
            Self::with_column(v, col).count == v.count,
            Self::with_column(v, col).free == v.free,
            Self::with_column(v, Self::column(v)) == v,
    ;

    /// Read access to this kind's column.
    fn col_ref(c: &EContainer) -> (r: Option<&Vec<Option<Self>>>)
        ensures
            (r matches Some(v) ==> Self::column(c@) == Some(v@)),
            (r is None ==> Self::column(c@) is None),
    ;

    /// Exclusive access to this kind's column.
    fn col_mut(c: &mut EContainer) -> (r: Option<&mut Vec<Option<Self>>>)
        ensures
            (r is None ==> Self::column(old(c)@) is None && *final(c) == *old(c)),
            (r matches Some(m) ==> Self::column(old(c)@) == Some((*m)@) && final(c)@
                == Self::with_column(old(c)@, Some(final(m)@))),
    ;

    /// Attaches `value` to `entity`, creating the column on first use.
    fn attach(c: &mut EContainer, entity: usize, value: Self)
        requires
            entity < old(c)@.count,
            old(c)@.wf(),
        ensures
            final(c)@ == Self::with_column(
                old(c)@,
                Some(attach_col(Self::column(old(c)@), old(c)@.count, entity, value)),
            ),
            final(c)@.wf(),
    ;

    /// Clears this kind's slot of `entity`; a no-op without a column.
    fn detach(c: &mut EContainer, entity: usize)
        requires
            entity < old(c)@.count,
            old(c)@.wf(),
        ensures
            final(c)@ == Self::with_column(old(c)@, detach_col(Self::column(old(c)@), entity)),
            final(c)@.wf(),
    ;
}

impl EContainer {
    /// An empty store: no entities, no free ids, no columns registered.
    pub fn new() -> (r: Self)
        ensures
            r@ == (StoreView {
                count: 0nat,
                free: Seq::<usize>::empty(),
                colliders: None,
                coordinates: None,
                markers: None,
            }),
            r@.wf(),
    {
        Self {
            colliders: None,
            coordinates: None,
            markers: None,
            free_entities: Vec::new(),
            entity_count: 0,
        }
    }

    /// Allocates an entity id: the smallest currently-free id if any id has
    /// been released, else a fresh id, extending every registered column
    /// with an absent slot.
    pub fn new_entity(&mut self) -> (entity_id: usize)
        requires
            old(self)@.wf(),
            old(self)@.free.len() > 0 || old(self)@.count < usize::MAX,
        ensures
            final(self)@.wf(),
            old(self)@.free.len() > 0 ==> {
                &&& entity_id == old(self)@.free.last()
                &&& entity_id < old(self)@.count
                &&& forall|i: int|
                    0 <= i < old(self)@.free.len() ==> #[trigger] old(self)@.free[i] >= entity_id
                &&& final(self)@ == (StoreView { free: old(self)@.free.drop_last(), ..old(self)@ })
            },
            old(self)@.free.len() == 0 ==> {
                &&& entity_id == old(self)@.count
                &&& final(self)@ == old(self)@.grown()
            },
    {
        // Sets the new entity to the smallest free index if one is available
        if self.free_entities.len() > 0 {
            let ghost pre = self@;
            let free_id = self.free_entities.pop().unwrap();
            proof {
                assert forall|i: int| 0 <= i < pre.free.len() implies #[trigger] pre.free[i]
                    >= free_id by {
                    if i < pre.free.len() - 1 {
                        assert(pre.free[i] > pre.free[pre.free.len() - 1]);
                    }
                }
            }
            return free_id;
        }
        // If no free slots available, pushes to end of every column
        let entity_id = self.entity_count;
        match &mut self.colliders {
            Some(v) => v.push_none(),
            None => (),
        }
        match &mut self.coordinates {
            Some(v) => v.push_none(),
            None => (),
        }
        match &mut self.markers {
            Some(v) => v.push_none(),
            None => (),
        }
        self.entity_count = self.entity_count + 1;
        entity_id
    }

    /// The column of `ComponentType`, or `None` if no component of that kind
    /// was ever attached.
    pub fn borrow_component_vec<ComponentType: Component>(&self) -> (r: Option<
        &Vec<Option<ComponentType>>,
    >)
        ensures
            (r matches Some(v) ==> ComponentType::column(self@) == Some(v@)),
            (r is None ==> ComponentType::column(self@) is None),
    {
        ComponentType::col_ref(self)
    }

    /// Exclusive access to the column of `ComponentType`, or `None` if no
    /// component of that kind was ever attached.
    pub fn borrow_component_vec_mut<ComponentType: Component>(&mut self) -> (r: Option<
        &mut Vec<Option<ComponentType>>,
    >)
        ensures
            (r is None ==> ComponentType::column(old(self)@) is None && *final(self) == *old(self)),
            (r matches Some(m) ==> ComponentType::column(old(self)@) == Some((*m)@) && final(self)@
                == ComponentType::with_column(old(self)@, Some(final(m)@))),
    {
        ComponentType::col_mut(self)
    }

    /// Attaches `component` to `entity`, overwriting any previous component
    /// of the same kind; the column is created all-absent on first use.
    pub fn add_component_to_entity<ComponentType: Component>(
        &mut self,
        entity: usize,
        component: ComponentType,
    )
        requires
            entity < old(self)@.count,
            old(self)@.wf(),
        ensures
            final(self)@ == ComponentType::with_column(
                old(self)@,
                Some(
                    attach_col(
                        ComponentType::column(old(self)@),
                        old(self)@.count,
                        entity,
                        component,
                    ),
                ),
            ),
            final(self)@.wf(),
    {
        ComponentType::attach(self, entity, component)
    }

    /// Clears `entity`'s slot in the column of `ComponentType`; a no-op if
    /// that kind has no column yet.
    pub fn remove_entity_component<ComponentType: Component>(
        &mut self,
        entity: usize,
        _component: ComponentType,
    )
        requires
            entity < old(self)@.count,
            old(self)@.wf(),
        ensures
            final(self)@ == ComponentType::with_column(
                old(self)@,
                detach_col(ComponentType::column(old(self)@), entity),
            ),
            final(self)@.wf(),
    {
        ComponentType::detach(self, entity)
    }

    /// Releases `entity`: clears every registered column's slot and returns
    /// the id to the free list, keeping the list strictly descending.
    /// Releasing an id that is already free is a caller error and is ruled
    /// out by precondition.
    pub fn remove_entity(&mut self, entity: usize)
        requires
            old(self)@.wf(),
            entity < old(self)@.count,
            !old(self)@.free.contains(entity),
        ensures
            final(self)@.wf(),
            exists|at: int|
                0 <= at <= old(self)@.free.len() && final(self)@ == #[trigger] old(self)@.released(
                    entity,
                    at,
                ),
            final(self)@.free.len() == old(self)@.free.len() + 1,
            final(self)@.free.contains(entity),
    {
        let mut at: usize = 0;
        while at < self.free_entities.len() && self.free_entities[at] > entity
            invariant
                *self == *old(self),
                old(self)@.wf(),
                entity < old(self)@.count,
                !old(self)@.free.contains(entity),
                0 <= at <= self.free_entities.len(),
                forall|j: int| 0 <= j < at ==> #[trigger] self.free_entities@[j] > entity,
            decreases self.free_entities.len() - at,
        {
            at = at + 1;
        }
        proof {
            let s = self.free_entities@;
            if at < s.len() {
                assert(s[at as int] <= entity);
                assert(s[at as int] != entity) by {
                    assert(s.contains(s[at as int]));
                }
            }
        }
        match &mut self.colliders {
            Some(v) => v.set_none(entity),
            None => (),
        }
        match &mut self.coordinates {
            Some(v) => v.set_none(entity),
            None => (),
        }
        match &mut self.markers {
            Some(v) => v.set_none(entity),
            None => (),
        }
        self.free_entities.insert(at, entity);
        proof {
            let pre = old(self)@.free;
            let post = self.free_entities@;
            assert(post == pre.insert(at as int, entity));
            assert(post.contains(entity)) by {
                assert(post[at as int] == entity);
            }
            assert forall|i: int, j: int|
                #![trigger post[i], post[j]]
                0 <= i < j < post.len() implies post[i] > post[j] by {
                lemma_seq_insert_index(pre, at as int, entity, i);
                lemma_seq_insert_index(pre, at as int, entity, j);
                if at < pre.len() {
                    assert(pre[at as int] < entity);
                }
            }
            assert forall|i: int| 0 <= i < post.len() implies #[trigger] post[i]
                < old(self)@.count by {
                lemma_seq_insert_index(pre, at as int, entity, i);
            }
            assert(final(self)@ == old(self)@.released(entity, at as int));
        }
    }
}

/// How `Seq::insert` places elements: positions before `at` read the old
/// sequence, position `at` reads the new element, later positions shift.
pub proof fn lemma_seq_insert_index<T>(s: Seq<T>, at: int, v: T, i: int)
    requires
        0 <= at <= s.len(),
        0 <= i < s.len() + 1,
    ensures
        i < at ==> s.insert(at, v)[i] == s[i],
        i == at ==> s.insert(at, v)[i] == v,
        i > at ==> s.insert(at, v)[i] == s[i - 1],
{
}

impl Component for Collider {
    open spec fn column(v: StoreView) -> Option<Seq<Option<Collider>>> {
        v.colliders
    }

    open spec fn with_column(v: StoreView, col: Option<Seq<Option<Collider>>>) -> StoreView {
        StoreView { colliders: col, ..v }
    }

    proof fn column_algebra(v: StoreView, col: Option<Seq<Option<Collider>>>) {
    }

    fn col_ref(c: &EContainer) -> (r: Option<&Vec<Option<Collider>>>) {
        match &c.colliders {
            Some(v) => Some(v),
            None => None,
        }
    }

    fn col_mut(c: &mut EContainer) -> (r: Option<&mut Vec<Option<Collider>>>) {
        match &mut c.colliders {
            Some(v) => Some(v),
            None => None,
        }
    }

    fn attach(c: &mut EContainer, entity: usize, value: Collider) {
        let has_col = c.colliders.is_some();
        if has_col {
            match &mut c.colliders {
                Some(v) => {
                    v[entity] = Some(value);
                },
                None => (),
            }
        } else {
            let mut new_vec: Vec<Option<Collider>> = new_none_vec(c.entity_count);
            new_vec[entity] = Some(value);
            proof {
                assert(new_vec@ =~= Seq::new(old(c)@.count, |i: int| None::<Collider>).update(
                    entity as int,
                    Some(value),
                ));
            }
            c.colliders = Some(new_vec);
        }
    }

    fn detach(c: &mut EContainer, entity: usize) {
        match &mut c.colliders {
            Some(v) => {
                v[entity] = None;
            },
            None => (),
        }
    }
}

impl Component for Coordinates {
    open spec fn column(v: StoreView) -> Option<Seq<Option<Coordinates>>> {
        v.coordinates
    }

    open spec fn with_column(v: StoreView, col: Option<Seq<Option<Coordinates>>>) -> StoreView {
        StoreView { coordinates: col, ..v }
    }

    proof fn column_algebra(v: StoreView, col: Option<Seq<Option<Coordinates>>>) {
    }

    fn col_ref(c: &EContainer) -> (r: Option<&Vec<Option<Coordinates>>>) {
        match &c.coordinates {
            Some(v) => Some(v),
            None => None,
        }
    }

    fn col_mut(c: &mut EContainer) -> (r: Option<&mut Vec<Option<Coordinates>>>) {
        match &mut c.coordinates {
            Some(v) => Some(v),
            None => None,
        }
    }

    fn attach(c: &mut EContainer, entity: usize, value: Coordinates) {
        let has_col = c.coordinates.is_some();
        if has_col {
            match &mut c.coordinates {
                Some(v) => {
                    v[entity] = Some(value);
                },
                None => (),
            }
        } else {
            let mut new_vec: Vec<Option<Coordinates>> = new_none_vec(c.entity_count);
            new_vec[entity] = Some(value);
            proof {
                assert(new_vec@ =~= Seq::new(old(c)@.count, |i: int| None::<Coordinates>).update(
                    entity as int,
                    Some(value),
                ));
            }
            c.coordinates = Some(new_vec);
        }
    }

    fn detach(c: &mut EContainer, entity: usize) {
        match &mut c.coordinates {
            Some(v) => {
                v[entity] = None;
            },
            None => (),
        }
    }
}

impl Component for i32 {
    open spec fn column(v: StoreView) -> Option<Seq<Option<i32>>> {
        v.markers
    }

    open spec fn with_column(v: StoreView, col: Option<Seq<Option<i32>>>) -> StoreView {
        StoreView { markers: col, ..v }
    }

    proof fn column_algebra(v: StoreView, col: Option<Seq<Option<i32>>>) {
    }

    fn col_ref(c: &EContainer) -> (r: Option<&Vec<Option<i32>>>) {
        match &c.markers {
            Some(v) => Some(v),
            None => None,
        }
    }

    fn col_mut(c: &mut EContainer) -> (r: Option<&mut Vec<Option<i32>>>) {
        match &mut c.markers {
            Some(v) => Some(v),
            None => None,
        }
    }

    fn attach(c: &mut EContainer, entity: usize, value: i32) {
        let has_col = c.markers.is_some();
        if has_col {
            match &mut c.markers {
                Some(v) => {
                    v[entity] = Some(value);
                },
                None => (),
            }
        } else {
            let mut new_vec: Vec<Option<i32>> = new_none_vec(c.entity_count);
            new_vec[entity] = Some(value);
            proof {
                assert(new_vec@ =~= Seq::new(old(c)@.count, |i: int| None::<i32>).update(
                    entity as int,
                    Some(value),
                ));
            }
            c.markers = Some(new_vec);
        }
    }

    fn detach(c: &mut EContainer, entity: usize) {
        match &mut c.markers {
            Some(v) => {
                v[entity] = None;
            },
            None => (),
        }
    }
}

/// A fresh all-absent column with one slot per existing entity.
fn new_none_vec<T>(count: usize) -> (r: Vec<Option<T>>)
    ensures
        r@.len() == count,
        forall|i: int| 0 <= i < count ==> #[trigger] r@[i] is None,
{
    let mut new_vec: Vec<Option<T>> = Vec::new();
    let mut i: usize = 0;
    while i < count
        invariant
            0 <= i <= count,
            new_vec@.len() == i,
            forall|j: int| 0 <= j < i ==> #[trigger] new_vec@[j] is None,
        decreases count - i,
    {
        new_vec.push(None);
        i = i + 1;
    }
    new_vec
}

/// Entity id reuse, smallest-free policy: when id `k` is free and no free id
/// is smaller, the descending free list ends in `k`, so the next allocation
/// (which `new_entity` guarantees pops the last free id) returns exactly
/// `k`.
pub proof fn lemma_entity_id_reuse(v: StoreView, k: usize)
    requires
        v.wf(),
        v.free.contains(k),
        forall|i: int| 0 <= i < v.free.len() ==> #[trigger] v.free[i] >= k,
    ensures
        v.free.len() > 0,
        v.free.last() == k,
{
    let j = choose|j: int| 0 <= j < v.free.len() && v.free[j] == k;
    if j < v.free.len() - 1 {
        assert(v.free[j] > v.free[v.free.len() - 1]);
        assert(v.free[v.free.len() - 1] >= k);
        assert(false);
    }
}

/// Column growth invariant: allocating a fresh entity grows every
/// previously-registered column by exactly one slot, the new slot is
/// absent, and unregistered kinds stay unregistered.
pub proof fn lemma_column_growth(v: StoreView)
    requires
        v.wf(),
    ensures
        v.grown().wf(),
        v.grown().count == v.count + 1,
        (v.colliders matches Some(s) ==> v.grown().colliders == Some(s.push(None::<Collider>))
            && s.push(None::<Collider>).len() == s.len() + 1 && s.push(None::<Collider>).last()
            is None),
        (v.coordinates matches Some(s) ==> v.grown().coordinates == Some(
            s.push(None::<Coordinates>),
        ) && s.push(None::<Coordinates>).len() == s.len() + 1 && s.push(
            None::<Coordinates>,
        ).last() is None),
        (v.markers matches Some(s) ==> v.grown().markers == Some(s.push(None::<i32>)) && s.push(
            None::<i32>,
        ).len() == s.len() + 1 && s.push(None::<i32>).last() is None),
        v.colliders is None ==> v.grown().colliders is None,
        v.coordinates is None ==> v.grown().coordinates is None,
        v.markers is None ==> v.grown().markers is None,
{
}

} // verus!
