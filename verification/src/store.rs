//! The dependency store and its items.

use vstd::prelude::*;

use crate::compute::ComputeFn;

verus! {

/// Identifies an item in a store: a non-negative integer allocated by the
/// store, never reused while the store lives.
pub type ItemId = usize;

/// The items of a store.
///
/// Ids are allocated as the lowest unused integer and items are never
/// removed, so the item with id `i` lives at position `i`.
pub type Items<C> = Vec<Item<C>>;

/// The ways a store operation can fail.
#[derive(Debug, PartialEq, Eq)]
pub enum StoreError {
    /// The given id names no item in the store.
    ItemNotFound(ItemId),
    /// The id space is exhausted; no new item can be allocated.
    ItemIdsEnded,
    /// The target of a write is a computed item, which is read-only from the
    /// outside.
    UnableToSetComputedValue,
}

/// Every id in `deps` is below `bound`.
pub open spec fn deps_below(deps: Seq<ItemId>, bound: int) -> bool {
    forall|k: int| 0 <= k < deps.len() ==> (#[trigger] deps[k]) < bound
}

/// The current values of the items named by `deps`, in order.
pub open spec fn dep_values<C: ComputeFn>(items: Seq<Item<C>>, deps: Seq<ItemId>) -> Seq<
    C::Value,
> {
    deps.map_values(|d: ItemId| items[d as int].spec_value())
}

/// The first id in `deps` that is not below `n`, where one exists.
pub open spec fn first_absent(deps: Seq<ItemId>, n: int) -> ItemId
    decreases deps.len(),
{
    if deps.len() == 0 {
        0
    } else if deps.first() >= n {
        deps.first()
    } else {
        first_absent(deps.drop_first(), n)
    }
}

proof fn lemma_first_absent(deps: Seq<ItemId>, n: int, k: int)
    requires
        0 <= k < deps.len(),
        deps[k] >= n,
        forall|j: int| 0 <= j < k ==> (#[trigger] deps[j]) < n,
    ensures
        first_absent(deps, n) == deps[k],
    decreases k,
{
    if k > 0 {
        lemma_first_absent(deps.drop_first(), n, k - 1);
    }
}

/// An ordered list of dependency ids together with a pure function that
/// combines the dependencies' values, in order, into one value.
pub struct ValueComputer<C: ComputeFn> {
    deps: Vec<ItemId>,
    compute_fn: C,
}

impl<C: ComputeFn> ValueComputer<C> {
    /// The ordered dependency ids.
    pub closed spec fn spec_deps(self) -> Seq<ItemId> {
        self.deps@
    }

    /// The pure function applied to the dependency values.
    pub closed spec fn spec_func(self) -> C {
        self.compute_fn
    }

    /// The value this computer produces from `items`: its function applied to
    /// the dependencies' current values, in dependency order.
    pub open spec fn spec_compute_from(self, items: Seq<Item<C>>) -> C::Value {
        self.spec_func().spec_compute(dep_values(items, self.spec_deps()))
    }

    /// Builds a computer over the given ordered dependency ids.
    pub fn new(deps: &[ItemId], compute_fn: C) -> (vc: Self)
        ensures
            vc.spec_deps() == deps@,
            vc.spec_func() == compute_fn,
    {
        Self { deps: vstd::slice::slice_to_vec(deps), compute_fn }
    }

    /// Evaluates the computer against the given items.
    ///
    /// Returns the computed value, or `ItemNotFound` naming the first
    /// dependency id absent from `items`.
    pub fn compute(&self, items: &Items<C>) -> (r: Result<C::Value, StoreError>)
        ensures
            deps_below(self.spec_deps(), items@.len() as int) ==> r == Ok::<
                C::Value,
                StoreError,
            >(self.spec_compute_from(items@)),
            !deps_below(self.spec_deps(), items@.len() as int) ==> r == Err::<
                C::Value,
                StoreError,
            >(StoreError::ItemNotFound(first_absent(self.spec_deps(), items@.len() as int))),
    {
        let mut vals: Vec<C::Value> = Vec::new();
        let mut k: usize = 0;
        while k < self.deps.len()
            invariant
                k <= self.deps@.len(),
                vals@.len() == k,
                forall|j: int| 0 <= j < k ==> (#[trigger] self.deps@[j]) < items@.len(),
                forall|j: int| 0 <= j < k ==> vals@[j] == items@[self.deps@[j] as int].spec_value(),
            decreases self.deps@.len() - k,
        {
            let d: ItemId = self.deps[k];
            if d >= items.len() {
                proof {
                    lemma_first_absent(self.deps@, items@.len() as int, k as int);
                }
                return Err(StoreError::ItemNotFound(d));
            }
            vals.push(items[d].value());
            k = k + 1;
        }
        proof {
            assert(vals@ =~= dep_values(items@, self.spec_deps()));
        }
        Ok(self.compute_fn.compute(vals.as_slice()))
    }
}

/// A store entry whose value is set directly by a caller.
pub struct InputItem<T: Copy> {
    id: ItemId,
    value: T,
}

/// A store entry whose value is derived from other items by a value computer.
pub struct ComputedItem<C: ComputeFn> {
    id: ItemId,
    value: C::Value,
    value_computer: ValueComputer<C>,
}

impl<C: ComputeFn> ComputedItem<C> {
    /// The item's id.
    pub closed spec fn spec_id(self) -> ItemId {
        self.id
    }

    /// The cached value.
    pub closed spec fn spec_value(self) -> C::Value {
        self.value
    }

    /// The item's value computer.
    pub closed spec fn spec_computer(self) -> ValueComputer<C> {
        self.value_computer
    }

    /// Recomputes the cached value from the given items' current values.
    ///
    /// Returns the new value, or `ItemNotFound` (leaving the cache unchanged)
    /// when a dependency is absent from `items`.
    pub fn update_value(&mut self, items: &Items<C>) -> (r: Result<C::Value, StoreError>)
        ensures
            final(self).spec_id() == old(self).spec_id(),
            final(self).spec_computer() == old(self).spec_computer(),
            deps_below(old(self).spec_computer().spec_deps(), items@.len() as int) ==> {
                &&& r == Ok::<C::Value, StoreError>(final(self).spec_value())
                &&& final(self).spec_value() == old(self).spec_computer().spec_compute_from(
                    items@,
                )
            },
            !deps_below(old(self).spec_computer().spec_deps(), items@.len() as int) ==> {
                &&& r == Err::<C::Value, StoreError>(
                    StoreError::ItemNotFound(
                        first_absent(
                            old(self).spec_computer().spec_deps(),
                            items@.len() as int,
                        ),
                    ),
                )
                &&& final(self).spec_value() == old(self).spec_value()
            },
    {
        match self.value_computer.compute(items) {
            Ok(v) => {
                self.value = v;
                Ok(v)
            },
            Err(e) => Err(e),
        }
    }
}

/// A unit of value storage: an input cell or a computed cell.
pub enum Item<C: ComputeFn> {
    Input(InputItem<C::Value>),
    Computed(ComputedItem<C>),
}

impl<C: ComputeFn> Item<C> {
    /// Whether this item is a computed item.
    pub open spec fn is_computed(self) -> bool {
        self matches Item::Computed(_)
    }

    /// The item's id.
    pub closed spec fn spec_id(self) -> ItemId {
        match self {
            Item::Input(item) => item.id,
            Item::Computed(item) => item.id,
        }
    }

    /// The item's current value.
    pub closed spec fn spec_value(self) -> C::Value {
        match self {
            Item::Input(item) => item.value,
            Item::Computed(item) => item.value,
        }
    }

    /// The ordered dependency ids of a computed item; an input has none.
    pub closed spec fn spec_deps(self) -> Seq<ItemId> {
        match self {
            Item::Input(_) => Seq::empty(),
            Item::Computed(item) => item.spec_computer().spec_deps(),
        }
    }

    /// The pure function of a computed item.
    pub closed spec fn spec_func(self) -> C {
        match self {
            Item::Input(_) => arbitrary(),
            Item::Computed(item) => item.spec_computer().spec_func(),
        }
    }

    /// The item's current value.
    pub fn value(&self) -> (v: C::Value)
        ensures
            v == self.spec_value(),
    {
        match self {
            Item::Input(item) => item.value,
            Item::Computed(item) => item.value,
        }
    }

    /// Builds an input item.
    pub fn new_input(id: ItemId, value: C::Value) -> (item: Self)
        ensures
            item.spec_id() == id,
            item.spec_value() == value,
            !item.is_computed(),
    {
        Item::Input(InputItem { id, value })
    }

    /// Builds a computed item with an already-computed initial value.
    pub fn new_computed(id: ItemId, value: C::Value, value_computer: ValueComputer<C>) -> (item:
        Self)
        ensures
            item.spec_id() == id,
            item.spec_value() == value,
            item.is_computed(),
            item.spec_deps() == value_computer.spec_deps(),
            item.spec_func() == value_computer.spec_func(),
    {
        Item::Computed(ComputedItem { id, value, value_computer })
    }

    /// The item's id.
    pub fn id(&self) -> (id: ItemId)
        ensures
            id == self.spec_id(),
    {
        match self {
            Item::Input(item) => item.id,
            Item::Computed(item) => item.id,
        }
    }
}

/// The dependency store: a collection of items addressed by id, kept
/// consistent — after every operation each computed item caches exactly the
/// value its computer produces from its dependencies' current values.
pub struct Store<C: ComputeFn> {
    items: Items<C>,
}

impl<C: ComputeFn> Store<C> {
    /// The number of items; ids `0 ..= num_items - 1` are exactly the
    /// allocated ids.
    pub closed spec fn num_items(self) -> nat {
        self.items@.len()
    }

    /// Whether `id` names an item of the store.
    pub open spec fn contains_id(self, id: ItemId) -> bool {
        id < self.num_items()
    }

    /// The item with the given id.
    pub closed spec fn item_at(self, id: ItemId) -> Item<C> {
        self.items@[id as int]
    }

    /// The current value of the item with the given id.
    pub open spec fn value_of(self, id: ItemId) -> C::Value {
        self.item_at(id).spec_value()
    }

    /// Whether `id` names a computed item.
    pub open spec fn is_computed(self, id: ItemId) -> bool {
        self.item_at(id).is_computed()
    }

    /// Whether `id` names an input item.
    pub open spec fn is_input(self, id: ItemId) -> bool {
        self.contains_id(id) && !self.is_computed(id)
    }

    /// The ordered dependency ids of the computed item with the given id.
    pub open spec fn deps_of(self, id: ItemId) -> Seq<ItemId> {
        self.item_at(id).spec_deps()
    }

    /// The pure function of the computed item with the given id.
    pub open spec fn func_of(self, id: ItemId) -> C {
        self.item_at(id).spec_func()
    }

    /// The current values of `id`'s dependencies, in dependency order.
    pub open spec fn dep_values_of(self, id: ItemId) -> Seq<C::Value> {
        self.deps_of(id).map_values(|d: ItemId| self.value_of(d))
    }

    /// The computed item with id `id` caches exactly the value its function
    /// produces from its dependencies' current values.
    pub open spec fn consistent_at(self, id: ItemId) -> bool {
        self.is_computed(id) ==> self.value_of(id) == self.func_of(id).spec_compute(
            self.dep_values_of(id),
        )
    }

    /// Every computed item with id below `n` is consistent.
    pub open spec fn consistent_below(self, n: int) -> bool {
        forall|id: ItemId| id < n && self.contains_id(id) ==> #[trigger] self.consistent_at(id)
    }

    /// Every computed item is consistent with its dependencies' current
    /// values.
    pub open spec fn consistent(self) -> bool {
        self.consistent_below(self.num_items() as int)
    }

    /// Structural well-formedness: the item at position `id` carries id `id`,
    /// and every dependency of a computed item was allocated before it, so
    /// dependency edges always lead to smaller ids and the graph is acyclic.
    pub open spec fn wf(self) -> bool {
        &&& forall|id: ItemId|
            self.contains_id(id) ==> #[trigger] self.item_at(id).spec_id() == id
        &&& forall|id: ItemId|
            self.contains_id(id) && self.is_computed(id) ==> deps_below(
                #[trigger] self.deps_of(id),
                id as int,
            )
    }

    /// `self` and `other` hold identical items at every id below `n`.
    pub open spec fn agrees_below(self, other: Store<C>, n: int) -> bool {
        forall|id: ItemId| id < n ==> #[trigger] self.item_at(id) == other.item_at(id)
    }

    /// `self` and `other` hold the same items, except possibly for the cached
    /// values: same count, and at each id the same kind, the same
    /// dependencies and the same function.
    pub open spec fn same_shape(self, other: Store<C>) -> bool {
        &&& self.num_items() == other.num_items()
        &&& forall|id: ItemId|
            self.contains_id(id) ==> {
                &&& (#[trigger] self.is_computed(id)) == other.is_computed(id)
                &&& self.item_at(id).spec_id() == other.item_at(id).spec_id()
                &&& self.deps_of(id) == other.deps_of(id)
                &&& self.func_of(id) == other.func_of(id)
            }
    }

    /// Every input item of `self` holds the same value in `other`.
    pub open spec fn inputs_agree(self, other: Store<C>) -> bool {
        forall|id: ItemId|
            #[trigger] self.is_input(id) ==> self.value_of(id) == other.value_of(id)
    }

    /// The value the item with `id` would have if every computed item were
    /// re-evaluated bottom-up: its function applied to the fresh evaluations
    /// of its dependencies, all the way down to the input values.
    pub open spec fn eval(self, id: ItemId) -> C::Value
        decreases id, 1int, 0int,
        when self.wf() && self.contains_id(id)
    {
        if self.is_computed(id) {
            self.func_of(id).spec_compute(self.eval_deps(id, self.deps_of(id)))
        } else {
            self.value_of(id)
        }
    }

    /// The fresh bottom-up evaluations of `deps`, in order; every id in
    /// `deps` lies below `id`.
    pub open spec fn eval_deps(self, id: ItemId, deps: Seq<ItemId>) -> Seq<C::Value>
        decreases id, 0int, deps.len(),
        when self.wf() && self.contains_id(id) && deps_below(deps, id as int)
    {
        if deps.len() == 0 {
            Seq::empty()
        } else {
            self.eval_deps(id, deps.drop_last()).push(self.eval(deps.last()))
        }
    }

    /// Builds an empty store.
    pub fn new() -> (store: Self)
        ensures
            store.num_items() == 0,
            store.wf(),
            store.consistent(),
    {
        Self { items: Vec::new() }
    }

    /// The lowest unused id, or `ItemIdsEnded` when the id space is
    /// exhausted.
    ///
    /// Items are never removed, so the lowest unused id is the item count.
    fn get_new_item_id(&self) -> (r: Result<ItemId, StoreError>)
        ensures
            r matches Ok(id) ==> id == self.num_items() && self.num_items() < usize::MAX,
            r matches Err(e) ==> e == StoreError::ItemIdsEnded && self.num_items()
                == usize::MAX,
    {
        if self.items.len() == usize::MAX {
            Err(StoreError::ItemIdsEnded)
        } else {
            Ok(self.items.len())
        }
    }

    /// Reads the cached value of the item with the given id.
    ///
    /// Returns `ItemNotFound` when the id is unknown. Never recomputes
    /// anything: the result is the value already resident.
    pub fn get_value(&self, item_id: ItemId) -> (r: Result<C::Value, StoreError>)
        ensures
            self.contains_id(item_id) ==> r == Ok::<C::Value, StoreError>(
                self.value_of(item_id),
            ),
            !self.contains_id(item_id) ==> r == Err::<C::Value, StoreError>(
                StoreError::ItemNotFound(item_id),
            ),
    {
        if item_id < self.items.len() {
            Ok(self.items[item_id].value())
        } else {
            Err(StoreError::ItemNotFound(item_id))
        }
    }

    /// Creates an input item holding `value` and returns its id.
    ///
    /// Fails only with `ItemIdsEnded`, when the id space is exhausted.
    pub fn new_input_item(&mut self, value: C::Value) -> (r: Result<ItemId, StoreError>)
        requires
            old(self).wf(),
            old(self).consistent(),
        ensures
            final(self).wf(),
            final(self).consistent(),
            r matches Ok(id) ==> {
                &&& old(self).num_items() < usize::MAX
                &&& id == old(self).num_items()
                &&& final(self).num_items() == old(self).num_items() + 1
                &&& final(self).is_input(id)
                &&& final(self).value_of(id) == value
                &&& final(self).agrees_below(*old(self), old(self).num_items() as int)
            },
            r matches Err(e) ==> {
                &&& e == StoreError::ItemIdsEnded
                &&& old(self).num_items() == usize::MAX
                &&& *final(self) == *old(self)
            },
    {
        let item_id: ItemId = match self.get_new_item_id() {
            Ok(id) => id,
            Err(e) => {
                return Err(e);
            },
        };
        let item = Item::new_input(item_id, value);
        self.items.push(item);
        proof {
            lemma_push_preserves(*old(self), *self, item);
        }
        Ok(item_id)
    }

    /// Creates a computed item over the given ordered dependency ids and
    /// returns its id.
    ///
    /// Every dependency must already exist: otherwise the call fails with
    /// `ItemNotFound` naming the first missing id and leaves the store
    /// unchanged. The new item immediately caches the value `compute_fn`
    /// produces from the dependencies' current values.
    pub fn new_computed_item(&mut self, deps: &[ItemId], compute_fn: C) -> (r: Result<
        ItemId,
        StoreError,
    >)
        requires
            old(self).wf(),
            old(self).consistent(),
        ensures
            final(self).wf(),
            final(self).consistent(),
            r matches Ok(id) ==> {
                &&& deps_below(deps@, old(self).num_items() as int)
                &&& old(self).num_items() < usize::MAX
                &&& id == old(self).num_items()
                &&& final(self).num_items() == old(self).num_items() + 1
                &&& final(self).is_computed(id)
                &&& final(self).deps_of(id) == deps@
                &&& final(self).func_of(id) == compute_fn
                &&& final(self).value_of(id) == compute_fn.spec_compute(
                    final(self).dep_values_of(id),
                )
                &&& final(self).agrees_below(*old(self), old(self).num_items() as int)
            },
            r matches Err(e) ==> {
                &&& *final(self) == *old(self)
                &&& !deps_below(deps@, old(self).num_items() as int) ==> e
                    == StoreError::ItemNotFound(
                    first_absent(deps@, old(self).num_items() as int),
                )
                &&& deps_below(deps@, old(self).num_items() as int) ==> e
                    == StoreError::ItemIdsEnded && old(self).num_items() == usize::MAX
            },
            r is Ok <==> (deps_below(deps@, old(self).num_items() as int) && old(
                self,
            ).num_items() < usize::MAX),
    {
        let ghost pre = *self;
        let mut k: usize = 0;
        while k < deps.len()
            invariant
                *self == pre,
                pre == *old(self),
                pre.wf(),
                pre.consistent(),
                k <= deps@.len(),
                forall|j: int| 0 <= j < k ==> (#[trigger] deps@[j]) < self.num_items(),
            decreases deps@.len() - k,
        {
            let d: ItemId = deps[k];
            if d >= self.items.len() {
                proof {
                    lemma_first_absent(deps@, pre.num_items() as int, k as int);
                }
                return Err(StoreError::ItemNotFound(d));
            }
            k = k + 1;
        }
        let item_id: ItemId = match self.get_new_item_id() {
            Ok(id) => id,
            Err(e) => {
                return Err(e);
            },
        };
        let value_computer = ValueComputer::new(deps, compute_fn);
        let value = match value_computer.compute(&self.items) {
            Ok(v) => v,
            Err(e) => {
                proof {
                    assert(false);
                }
                return Err(e);
            },
        };
        let item = Item::new_computed(item_id, value, value_computer);
        self.items.push(item);
        proof {
            assert(self.dep_values_of(item_id) =~= dep_values(pre.items@, deps@)) by {
                assert forall|j: int| 0 <= j < deps@.len() implies self.dep_values_of(item_id)[j]
                    == dep_values(pre.items@, deps@)[j] by {
                    let d = deps@[j];
                    assert(self.item_at(d) == pre.item_at(d));
                }
            }
            lemma_push_preserves(pre, *self, item);
        }
        Ok(item_id)
    }

    /// Replaces the value of the input item with the given id, then
    /// propagates: recomputes every computed item that could observe the
    /// change, so that on return the whole store is consistent again.
    ///
    /// Fails with `ItemNotFound` when the id is unknown and with
    /// `UnableToSetComputedValue` when it names a computed item; either way
    /// the store is left unchanged.
    pub fn set_value(&mut self, item_id: ItemId, value: C::Value) -> (r: Result<(), StoreError>)
        requires
            old(self).wf(),
            old(self).consistent(),
        ensures
            final(self).wf(),
            final(self).consistent(),
            old(self).is_input(item_id) ==> {
                &&& r == Ok::<(), StoreError>(())
                &&& final(self).same_shape(*old(self))
                &&& final(self).value_of(item_id) == value
                &&& forall|j: ItemId|
                    old(self).is_input(j) && j != item_id ==> final(self).value_of(j) == old(
                        self,
                    ).value_of(j)
            },
            !old(self).contains_id(item_id) ==> r == Err::<(), StoreError>(
                StoreError::ItemNotFound(item_id),
            ) && *final(self) == *old(self),
            old(self).contains_id(item_id) && old(self).is_computed(item_id) ==> r == Err::<
                (),
                StoreError,
            >(StoreError::UnableToSetComputedValue) && *final(self) == *old(self),
    {
        let ghost pre = *self;
        if item_id >= self.items.len() {
            return Err(StoreError::ItemNotFound(item_id));
        }
        let is_input = match &self.items[item_id] {
            Item::Input(_) => true,
            Item::Computed(_) => false,
        };
        if !is_input {
            return Err(StoreError::UnableToSetComputedValue);
        }
        let item = self.items.remove(item_id);
        let item = match item {
            Item::Input(mut input_item) => {
                input_item.value = value;
                Item::Input(input_item)
            },
            Item::Computed(computed_item) => {
                proof {
                    assert(false);
                }
                Item::Computed(computed_item)
            },
        };
        self.items.insert(item_id, item);
        proof {
            lemma_remove_insert(pre.items@, item_id as int, item);
            assert forall|i: ItemId| pre.contains_id(i) && i != item_id implies self.item_at(i)
                == pre.item_at(i) by {}
            assert(self.wf()) by {
                assert forall|i: ItemId| self.contains_id(i) implies #[trigger] self.item_at(
                    i,
                ).spec_id() == i by {
                    if i != item_id {
                        assert(self.item_at(i) == pre.item_at(i));
                    } else {
                        assert(self.item_at(i) == item);
                    }
                    assert(pre.item_at(i).spec_id() == i);
                }
                assert forall|i: ItemId|
                    self.contains_id(i) && self.is_computed(i) implies deps_below(
                    #[trigger] self.deps_of(i),
                    i as int,
                ) by {
                    assert(i != item_id);
                    assert(self.item_at(i) == pre.item_at(i));
                    assert(deps_below(pre.deps_of(i), i as int));
                }
            }
            assert(self.consistent_below(item_id as int)) by {
                assert forall|i: ItemId|
                    i < item_id as int && self.contains_id(i) implies #[trigger] self
                    .consistent_at(i) by {
                    assert(self.item_at(i) == pre.item_at(i));
                    assert(pre.consistent_at(i));
                    if self.is_computed(i) {
                        assert(deps_below(pre.deps_of(i), i as int));
                        assert(self.dep_values_of(i) =~= pre.dep_values_of(i)) by {
                            assert forall|k: int|
                                0 <= k < self.deps_of(i).len() implies self.dep_values_of(i)[k]
                                == pre.dep_values_of(i)[k] by {
                                let d = self.deps_of(i)[k];
                                assert(d < i);
                                assert(self.item_at(d) == pre.item_at(d));
                            }
                        }
                    }
                }
            }
        }
        let r = self.update(item_id);
        proof {
            assert forall|j: ItemId|
                pre.is_input(j) && j != item_id implies final(self).value_of(j) == pre.value_of(
                j,
            ) by {}
        }
        r
    }

    /// The propagation pass: recomputes every computed item with id at or
    /// above `item_id`, in ascending id order.
    ///
    /// Dependencies always carry smaller ids than their dependents, so by the
    /// time an item is recomputed everything it depends on already holds its
    /// settled value; on return the whole store is consistent. Propagation
    /// itself cannot fail — every dependency exists — so the result is
    /// always `Ok`.
    pub fn update(&mut self, item_id: ItemId) -> (r: Result<(), StoreError>)
        requires
            old(self).wf(),
            old(self).consistent_below(item_id as int),
        ensures
            final(self).wf(),
            final(self).consistent(),
            final(self).same_shape(*old(self)),
            final(self).agrees_below(*old(self), item_id as int),
            forall|j: ItemId|
                old(self).is_input(j) ==> final(self).value_of(j) == old(self).value_of(j),
            r == Ok::<(), StoreError>(()),
    {
        let mut j: ItemId = item_id;
        while j < self.items.len()
            invariant
                old(self).wf(),
                self.wf(),
                item_id <= j,
                self.consistent_below(j as int),
                self.same_shape(*old(self)),
                self.agrees_below(*old(self), item_id as int),
                forall|i: ItemId|
                    old(self).is_input(i) ==> self.value_of(i) == old(self).value_of(i),
            decreases self.num_items() - j,
        {
            let ghost prev = *self;
            let item = self.items.remove(j);
            let item = match item {
                Item::Input(input_item) => Item::Input(input_item),
                Item::Computed(mut computed_item) => {
                    proof {
                        assert(deps_below(prev.deps_of(j), j as int));
                        assert(computed_item.spec_computer().spec_deps() == prev.deps_of(j));
                    }
                    let res = computed_item.update_value(&self.items);
                    match res {
                        Ok(_) => {},
                        Err(_) => {
                            proof {
                                assert(false);
                            }
                        },
                    }
                    Item::Computed(computed_item)
                },
            };
            self.items.insert(j, item);
            proof {
                lemma_remove_insert(prev.items@, j as int, item);
                if item.is_computed() {
                    assert(deps_below(prev.deps_of(j), j as int));
                    assert(dep_values(prev.items@.remove(j as int), item.spec_deps())
                        =~= self.dep_values_of(j)) by {
                        assert forall|k: int|
                            0 <= k < item.spec_deps().len() implies dep_values(
                            prev.items@.remove(j as int),
                            item.spec_deps(),
                        )[k] == self.dep_values_of(j)[k] by {
                            let d = item.spec_deps()[k];
                            assert(d < j);
                            assert(prev.items@.remove(j as int)[d as int] == prev.items@[
                                d as int
                            ]);
                            assert(self.item_at(d) == prev.item_at(d));
                        }
                    }
                }
                lemma_recompute_step(prev, *self, j, item);
                assert(self.same_shape(*old(self))) by {
                    assert forall|i: ItemId| self.contains_id(i) implies {
                        &&& (#[trigger] self.is_computed(i)) == old(self).is_computed(i)
                        &&& self.item_at(i).spec_id() == old(self).item_at(i).spec_id()
                        &&& self.deps_of(i) == old(self).deps_of(i)
                        &&& self.func_of(i) == old(self).func_of(i)
                    } by {
                        assert(prev.is_computed(i) == old(self).is_computed(i));
                        assert(prev.deps_of(i) == old(self).deps_of(i));
                        assert(prev.func_of(i) == old(self).func_of(i));
                        assert(prev.item_at(i).spec_id() == old(self).item_at(i).spec_id());
                    }
                }
                assert forall|i: ItemId|
                    old(self).is_input(i) implies self.value_of(i) == old(self).value_of(
                    i,
                ) by {
                    assert(prev.value_of(i) == old(self).value_of(i));
                    if i != j {
                        assert(self.item_at(i) == prev.item_at(i));
                    } else {
                        assert(prev.is_computed(i) == old(self).is_computed(i));
                    }
                }
                assert forall|i: ItemId|
                    i < item_id as int implies #[trigger] self.item_at(i) == old(self).item_at(
                    i,
                ) by {
                    assert(prev.item_at(i) == old(self).item_at(i));
                }
            }
            j = j + 1;
        }
        Ok(())
    }
}

impl<C: ComputeFn> Default for Store<C> {
    /// Builds an empty store.
    fn default() -> (store: Self)
        ensures
            store.num_items() == 0,
            store.wf(),
            store.consistent(),
    {
        Self { items: Vec::new() }
    }
}

/// The value at `id` in a well-formed, consistent store is fully determined
/// by the dependency structure and the input values: two such stores of the
/// same shape whose inputs agree hold the same value at `id`.
proof fn lemma_value_determined_at<C: ComputeFn>(s1: Store<C>, s2: Store<C>, id: ItemId)
    requires
        s1.wf(),
        s2.wf(),
        s1.consistent(),
        s2.consistent(),
        s1.same_shape(s2),
        s1.inputs_agree(s2),
        s1.contains_id(id),
    ensures
        s1.value_of(id) == s2.value_of(id),
    decreases id,
{
    if s1.is_computed(id) {
        assert(deps_below(s1.deps_of(id), id as int));
        assert(s1.consistent_at(id));
        assert(s2.consistent_at(id));
        assert(s1.dep_values_of(id) =~= s2.dep_values_of(id)) by {
            assert forall|k: int|
                0 <= k < s1.deps_of(id).len() implies s1.dep_values_of(id)[k]
                == s2.dep_values_of(id)[k] by {
                let d = s1.deps_of(id)[k];
                assert(d < id);
                lemma_value_determined_at(s1, s2, d);
            }
        }
    } else {
        assert(s1.is_input(id));
    }
}

/// No consistent store can hold a stale value: in a well-formed, consistent
/// store every value — cached computed values included — is a function of
/// the dependency structure and the input values alone, so two such stores
/// of the same shape whose inputs agree hold the same value everywhere.
pub proof fn lemma_values_determined<C: ComputeFn>(s1: Store<C>, s2: Store<C>)
    requires
        s1.wf(),
        s2.wf(),
        s1.consistent(),
        s2.consistent(),
        s1.same_shape(s2),
        s1.inputs_agree(s2),
    ensures
        forall|id: ItemId| s1.contains_id(id) ==> s1.value_of(id) == s2.value_of(id),
{
    assert forall|id: ItemId| s1.contains_id(id) implies s1.value_of(id) == s2.value_of(
        id,
    ) by {
        lemma_value_determined_at(s1, s2, id);
    }
}

proof fn lemma_eval_deps_elems<C: ComputeFn>(s: Store<C>, id: ItemId, deps: Seq<ItemId>)
    requires
        s.wf(),
        s.contains_id(id),
        deps_below(deps, id as int),
    ensures
        s.eval_deps(id, deps).len() == deps.len(),
        forall|k: int|
            0 <= k < deps.len() ==> #[trigger] s.eval_deps(id, deps)[k] == s.eval(deps[k]),
    decreases deps.len(),
{
    if deps.len() > 0 {
        lemma_eval_deps_elems(s, id, deps.drop_last());
        assert forall|k: int|
            0 <= k < deps.len() implies #[trigger] s.eval_deps(id, deps)[k] == s.eval(
            deps[k],
        ) by {
            if k < deps.len() - 1 {
                assert(deps.drop_last()[k] == deps[k]);
                assert(s.eval_deps(id, deps)[k] == s.eval_deps(id, deps.drop_last())[k]);
            }
        }
    }
}

/// A consistent cache already agrees with fresh bottom-up evaluation at `id`.
proof fn lemma_eval_at<C: ComputeFn>(s: Store<C>, id: ItemId)
    requires
        s.wf(),
        s.consistent(),
        s.contains_id(id),
    ensures
        s.value_of(id) == s.eval(id),
    decreases id,
{
    if s.is_computed(id) {
        assert(s.consistent_at(id));
        assert(deps_below(s.deps_of(id), id as int));
        lemma_eval_deps_elems(s, id, s.deps_of(id));
        assert(s.eval_deps(id, s.deps_of(id)) =~= s.dep_values_of(id)) by {
            assert forall|k: int|
                0 <= k < s.deps_of(id).len() implies s.eval_deps(id, s.deps_of(id))[k] == s
                .dep_values_of(id)[k] by {
                let d = s.deps_of(id)[k];
                assert(d < id);
                lemma_eval_at(s, d);
            }
        }
    }
}

/// A consistent store holds no stale value: every cached value — computed
/// items included — equals the fresh bottom-up evaluation of its item, which
/// depends on the dependency structure and the current input values alone.
pub proof fn lemma_consistent_values_settled<C: ComputeFn>(s: Store<C>)
    requires
        s.wf(),
        s.consistent(),
    ensures
        forall|id: ItemId| s.contains_id(id) ==> s.value_of(id) == #[trigger] s.eval(id),
{
    assert forall|id: ItemId| s.contains_id(id) implies s.value_of(id) == #[trigger] s.eval(
        id,
    ) by {
        lemma_eval_at(s, id);
    }
}

/// After replacing the item at `j` by one of the same id, kind, dependencies
/// and function — recomputed from the other items' current values if it is a
/// computed item, unchanged if it is an input — the store is still
/// well-formed, and consistency now extends through `j`.
proof fn lemma_recompute_step<C: ComputeFn>(
    prev: Store<C>,
    post: Store<C>,
    j: ItemId,
    item: Item<C>,
)
    requires
        prev.wf(),
        prev.consistent_below(j as int),
        j < prev.num_items(),
        post.num_items() == prev.num_items(),
        forall|i: ItemId|
            prev.contains_id(i) && i != j ==> #[trigger] post.item_at(i) == prev.item_at(i),
        post.item_at(j) == item,
        item.spec_id() == prev.item_at(j).spec_id(),
        item.is_computed() == prev.item_at(j).is_computed(),
        item.spec_deps() == prev.item_at(j).spec_deps(),
        item.spec_func() == prev.item_at(j).spec_func(),
        item.is_computed() ==> item.spec_value() == item.spec_func().spec_compute(
            post.dep_values_of(j),
        ),
        !item.is_computed() ==> item == prev.item_at(j),
    ensures
        post.wf(),
        post.consistent_below(j as int + 1),
        post.same_shape(prev),
{
    assert forall|i: ItemId| post.contains_id(i) implies #[trigger] post.item_at(i).spec_id()
        == i by {
        if i != j {
            assert(post.item_at(i) == prev.item_at(i));
        }
        assert(prev.item_at(i).spec_id() == i);
    }
    assert forall|i: ItemId| post.contains_id(i) && post.is_computed(i) implies deps_below(
        #[trigger] post.deps_of(i),
        i as int,
    ) by {
        if i != j {
            assert(post.item_at(i) == prev.item_at(i));
        }
        assert(deps_below(prev.deps_of(i), i as int));
        assert(post.deps_of(i) == prev.deps_of(i));
    }
    assert forall|i: ItemId| i < j as int + 1 && post.contains_id(i) implies #[trigger] post
        .consistent_at(i) by {
        if post.is_computed(i) {
            assert(deps_below(prev.deps_of(i), i as int));
            assert(post.deps_of(i) == prev.deps_of(i));
            if i < j as int {
                assert(post.item_at(i) == prev.item_at(i));
                assert(prev.consistent_at(i));
                assert(post.dep_values_of(i) =~= prev.dep_values_of(i)) by {
                    assert forall|k: int|
                        0 <= k < post.deps_of(i).len() implies post.dep_values_of(i)[k]
                        == prev.dep_values_of(i)[k] by {
                        let d = post.deps_of(i)[k];
                        assert(d < i);
                        assert(post.item_at(d) == prev.item_at(d));
                    }
                }
            }
        }
    }
    assert forall|i: ItemId| post.contains_id(i) implies {
        &&& (#[trigger] post.is_computed(i)) == prev.is_computed(i)
        &&& post.item_at(i).spec_id() == prev.item_at(i).spec_id()
        &&& post.deps_of(i) == prev.deps_of(i)
        &&& post.func_of(i) == prev.func_of(i)
    } by {
        if i != j {
            assert(post.item_at(i) == prev.item_at(i));
        }
    }
}

/// Removing the element at `j` and inserting `x` back at `j` is the same as
/// updating position `j` to `x`.
proof fn lemma_remove_insert<A>(s: Seq<A>, j: int, x: A)
    requires
        0 <= j < s.len(),
    ensures
        s.remove(j).insert(j, x) == s.update(j, x),
{
    assert forall|i: int| 0 <= i < s.len() implies s.remove(j).insert(j, x)[i] == s.update(
        j,
        x,
    )[i] by {}
    assert(s.remove(j).insert(j, x) =~= s.update(j, x));
}

/// Pushing an item onto a well-formed, consistent store leaves every existing
/// item in place, still consistent; the new item, if computed and itself
/// consistent with ids below it, keeps the whole store consistent.
proof fn lemma_push_preserves<C: ComputeFn>(pre: Store<C>, post: Store<C>, item: Item<C>)
    requires
        pre.wf(),
        pre.consistent(),
        pre.num_items() < usize::MAX,
        post.num_items() == pre.num_items() + 1,
        post.agrees_below(pre, pre.num_items() as int),
        post.item_at((pre.num_items()) as ItemId) == item,
        item.spec_id() == pre.num_items(),
        item.is_computed() ==> deps_below(item.spec_deps(), pre.num_items() as int),
        item.is_computed() ==> item.spec_value() == item.spec_func().spec_compute(
            post.dep_values_of((pre.num_items()) as ItemId),
        ),
    ensures
        post.wf(),
        post.consistent(),
{
    let n = pre.num_items() as int;
    assert forall|id: ItemId| post.contains_id(id) implies #[trigger] post.item_at(id).spec_id()
        == id by {
        if id < n {
            assert(post.item_at(id) == pre.item_at(id));
        } else {
            assert(post.item_at(id) == item);
        }
    }
    assert forall|id: ItemId|
        post.contains_id(id) && post.is_computed(id) implies deps_below(
        #[trigger] post.deps_of(id),
        id as int,
    ) by {
        if id < n {
            assert(post.item_at(id) == pre.item_at(id));
            assert(deps_below(pre.deps_of(id), id as int));
            assert(post.deps_of(id) == pre.deps_of(id));
        } else {
            assert(post.item_at(id) == item);
            assert(post.deps_of(id) == item.spec_deps());
        }
    }
    assert forall|id: ItemId| id < n + 1 && post.contains_id(id) implies #[trigger] post
        .consistent_at(id) by {
        if id < n {
            assert(post.item_at(id) == pre.item_at(id));
            assert(pre.consistent_at(id));
            if post.is_computed(id) {
                assert(deps_below(pre.deps_of(id), id as int));
                assert(post.dep_values_of(id) =~= pre.dep_values_of(id)) by {
                    assert forall|k: int|
                        0 <= k < post.deps_of(id).len() implies post.dep_values_of(id)[k]
                        == pre.dep_values_of(id)[k] by {
                        let d = post.deps_of(id)[k];
                        assert(d < id);
                        assert(post.item_at(d) == pre.item_at(d));
                    }
                }
            }
        } else {
            assert(post.item_at(id) == item);
        }
    }
}

} // verus!
