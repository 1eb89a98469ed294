//! The records that the engine takes and gives back.

use crate::geometry::{Coordinates, Position};
use std::cmp::Ordering;
use vstd::prelude::*;

verus! {

/// The largest extent that an item or a container may have.
pub const EXTENT_LIMIT: u64 = 1_000_000_000_000;

/// From this priority on an item is of high priority: it is searched a place
/// near the opening first, and may displace items of lower priority.
pub const HIGH_PRIORITY_THRESHOLD: i32 = 50;

/// An instant: the seconds since 1970-01-01 00:00:00 UTC, leap seconds not
/// counted, and the nanoseconds since the last full second.
#[derive(Clone, Copy, Debug, PartialEq, Eq, Structural)]
pub struct Timestamp {
    pub seconds: i64,
    pub nanos: u32,
}

impl Timestamp {
    /// `self` is an earlier instant than `other`.
    pub open spec fn earlier_than(&self, other: &Timestamp) -> bool {
        self.seconds < other.seconds || (self.seconds == other.seconds && self.nanos < other.nanos)
    }

    /// Whether `self` is an earlier instant than `other`.
    pub fn is_before(&self, other: &Timestamp) -> (r: bool)
        ensures
            r == self.earlier_than(other),
    {
        self.seconds < other.seconds || (self.seconds == other.seconds && self.nanos < other.nanos)
    }
}

/// Where an item is in its life.
#[allow(non_camel_case_types)]
#[derive(Clone, Copy, Debug, PartialEq, Eq, Structural)]
pub enum ItemStatus {
    ACTIVE,
    WASTE_EXPIRED,
    WASTE_DEPLETED,
    DISPOSED,
}

/// An item to be stored.
#[derive(Clone, Debug)]
pub struct Item {
    pub item_id: String,
    pub name: String,
    pub width: u64,
    pub depth: u64,
    pub height: u64,
    pub mass: Option<u64>,
    pub priority: i32,
    pub expiry_date: Option<Timestamp>,
    pub usage_limit: i32,
    pub current_uses: i32,
    pub preferred_zone: String,
    pub status: Option<ItemStatus>,
}

/// The number of uses of an item for which none is recorded.
pub fn default_current_uses() -> (uses: i32)
    ensures
        uses == 0,
{
    0
}

/// A container, open at depth 0.
#[derive(Clone, Debug)]
pub struct Container {
    pub container_id: String,
    pub zone: String,
    pub width: u64,
    pub depth: u64,
    pub height: u64,
    pub is_waste_container: Option<bool>,
    pub max_weight_capacity: Option<u64>,
}

/// A batch: the items to place and the containers that may take them.
#[derive(Clone, Debug)]
pub struct PlacementRequest {
    pub items: Vec<Item>,
    pub containers: Vec<Container>,
}

/// A placement that a user made by hand.
#[derive(Clone, Debug)]
pub struct PlaceRequest {
    pub item_id: String,
    pub user_id: String,
    pub container_id: String,
    pub position: Position,
}

/// Where one item is: its box and its container.
#[derive(Clone, Debug)]
pub struct PlacementResult {
    pub item_id: String,
    pub container_id: String,
    pub position: Position,
    pub retrieval_steps: usize,
    pub is_preferred_zone: bool,
}

/// One entry of the transcript of a batch.
#[derive(Clone, Debug)]
pub struct RearrangementStep {
    pub step: usize,
    pub action: String,
    pub item_id: String,
    pub from_container: Option<String>,
    pub to_container: Option<String>,
    pub from_position: Option<Position>,
    pub to_position: Option<Position>,
}

/// What a batch came to.
#[derive(Clone, Debug)]
pub struct PlacementResponse {
    pub success: bool,
    pub placements: Vec<PlacementResult>,
    pub rearrangements: Vec<RearrangementStep>,
    pub unplaced: Vec<String>,
    pub error: Option<String>,
}

/// The answer to a [`PlaceRequest`].
#[derive(Clone, Debug)]
pub struct PlaceResponse {
    pub success: bool,
    pub error: Option<String>,
}

/// The wish to take an item out.
#[derive(Clone, Debug)]
pub struct RetrievalRequest {
    pub item_id: String,
}

/// The answer to a [`RetrievalRequest`].
#[derive(Clone, Debug)]
pub struct RetrievalResponse {
    pub success: bool,
    pub item: Option<Item>,
    pub container_id: Option<String>,
    pub position: Option<Position>,
    pub steps_required: i32,
    pub items_to_move: Vec<String>,
    pub error: Option<String>,
}

/// The items that have become waste, and where to put them.
#[derive(Clone, Debug)]
pub struct WasteManagementResponse {
    pub expired_items: Vec<Item>,
    pub fully_used_items: Vec<Item>,
    pub suggested_waste_container: String,
    pub total_waste_mass: u64,
}

/// The present instant, read through `chrono::Utc::now` and taken apart by
/// `DateTime::timestamp` and `DateTime::timestamp_subsec_nanos`. Nothing is
/// claimed of it: it differs from call to call. `Utc::now` panics where the
/// system clock stands before 1970.
#[verifier::external_body]
fn current_instant() -> (now: Timestamp) {
    let now = chrono::Utc::now();
    Timestamp { seconds: now.timestamp(), nanos: now.timestamp_subsec_nanos() }
}

impl Item {
    /// The three extents are positive and within the limit.
    pub open spec fn well_formed(&self) -> bool {
        &&& 0 < self.width <= EXTENT_LIMIT
        &&& 0 < self.depth <= EXTENT_LIMIT
        &&& 0 < self.height <= EXTENT_LIMIT
    }

    /// Decides [`Item::well_formed`].
    pub fn is_well_formed(&self) -> (r: bool)
        ensures
            r == self.well_formed(),
    {
        0 < self.width && self.width <= EXTENT_LIMIT && 0 < self.depth && self.depth
            <= EXTENT_LIMIT && 0 < self.height && self.height <= EXTENT_LIMIT
    }

    /// The item's extents as it was declared.
    pub open spec fn dims(&self) -> (u64, u64, u64) {
        (self.width, self.depth, self.height)
    }

    /// The item is of high priority.
    pub open spec fn high_priority(&self) -> bool {
        self.priority >= HIGH_PRIORITY_THRESHOLD
    }

    /// Whether the item is of high priority.
    pub fn is_high_priority(&self) -> (r: bool)
        ensures
            r == self.high_priority(),
    {
        self.priority >= HIGH_PRIORITY_THRESHOLD
    }

    /// The status says that the item is waste.
    pub open spec fn marked_waste(&self) -> bool {
        self.status == Some(ItemStatus::WASTE_EXPIRED) || self.status == Some(
            ItemStatus::WASTE_DEPLETED,
        )
    }

    /// The item has been used as often as it may be.
    pub open spec fn depleted(&self) -> bool {
        self.current_uses >= self.usage_limit
    }

    /// The item has an expiry date, and it lies before `now`.
    pub open spec fn expired_at(&self, now: &Timestamp) -> bool {
        match self.expiry_date {
            Some(expiry) => expiry.earlier_than(now),
            None => false,
        }
    }

    /// The item is waste at the instant `now`: its status says so, its
    /// expiry date has passed, or its uses are spent.
    pub open spec fn waste_at(&self, now: &Timestamp) -> bool {
        self.marked_waste() || self.expired_at(now) || self.depleted()
    }

    /// Whether the item is waste at the instant `now`.
    pub fn is_waste_at(&self, now: &Timestamp) -> (r: bool)
        ensures
            r == self.waste_at(now),
    {
        if let Some(status) = self.status {
            if status == ItemStatus::WASTE_EXPIRED || status == ItemStatus::WASTE_DEPLETED {
                return true;
            }
        }
        if let Some(expiry) = self.expiry_date {
            if expiry.is_before(now) {
                return true;
            }
        }
        self.current_uses >= self.usage_limit
    }

    /// Whether the item is waste now. The clock decides only for an item
    /// that has an expiry date and is neither marked as waste nor spent.
    pub fn is_waste(&self) -> (r: bool)
        ensures
            self.marked_waste() || self.depleted() ==> r,
            self.expiry_date is None ==> r == (self.marked_waste() || self.depleted()),
    {
        let now = current_instant();
        self.is_waste_at(&now)
    }

    /// How `self` and `other` stand in the order in which items are served:
    /// the higher priority first; of two with the same priority the one that
    /// expires earlier, and one that expires before one that does not.
    pub open spec fn priority_ordering(&self, other: &Item) -> Ordering {
        if other.priority < self.priority {
            Ordering::Less
        } else if other.priority > self.priority {
            Ordering::Greater
        } else {
            match (self.expiry_date, other.expiry_date) {
                (Some(a), Some(b)) => if a.earlier_than(&b) {
                    Ordering::Less
                } else if b.earlier_than(&a) {
                    Ordering::Greater
                } else {
                    Ordering::Equal
                },
                (Some(_), None) => Ordering::Less,
                (None, Some(_)) => Ordering::Greater,
                (None, None) => Ordering::Equal,
            }
        }
    }

    /// Compares two items by the order in which they are served.
    pub fn compare_priority(&self, other: &Item) -> (r: Ordering)
        ensures
            r == self.priority_ordering(other),
    {
        if other.priority < self.priority {
            Ordering::Less
        } else if other.priority > self.priority {
            Ordering::Greater
        } else {
            match (self.expiry_date, other.expiry_date) {
                (Some(a), Some(b)) => {
                    if a.is_before(&b) {
                        Ordering::Less
                    } else if b.is_before(&a) {
                        Ordering::Greater
                    } else {
                        Ordering::Equal
                    }
                },
                (Some(_), None) => Ordering::Less,
                (None, Some(_)) => Ordering::Greater,
                (None, None) => Ordering::Equal,
            }
        }
    }
}

impl Container {
    /// The three extents are positive and within the limit.
    pub open spec fn well_formed(&self) -> bool {
        &&& 0 < self.width <= EXTENT_LIMIT
        &&& 0 < self.depth <= EXTENT_LIMIT
        &&& 0 < self.height <= EXTENT_LIMIT
    }

    /// Decides [`Container::well_formed`].
    pub fn is_well_formed(&self) -> (r: bool)
        ensures
            r == self.well_formed(),
    {
        0 < self.width && self.width <= EXTENT_LIMIT && 0 < self.depth && self.depth
            <= EXTENT_LIMIT && 0 < self.height && self.height <= EXTENT_LIMIT
    }

    /// The container's extents.
    pub open spec fn extents(&self) -> Coordinates {
        Coordinates { width: self.width, depth: self.depth, height: self.height }
    }
}

impl PlacementResponse {
    /// The response to a batch that was given up, with the reason.
    pub fn error(msg: String) -> (r: Self)
        ensures
            !r.success,
            r.placements@.len() == 0,
            r.rearrangements@.len() == 0,
            r.unplaced@.len() == 0,
            r.error == Some(msg),
    {
        PlacementResponse {
            success: false,
            placements: Vec::new(),
            rearrangements: Vec::new(),
            unplaced: Vec::new(),
            error: Some(msg),
        }
    }
}

/// `a` is served strictly before `b`.
pub open spec fn served_before(a: &Item, b: &Item) -> bool {
    a.priority_ordering(b) == Ordering::Less
}

/// Decides [`served_before`].
pub fn is_served_before(a: &Item, b: &Item) -> (r: bool)
    ensures
        r == served_before(a, b),
{
    match a.compare_priority(b) {
        Ordering::Less => true,
        _ => false,
    }
}

/// The laws of a total preorder hold of [`Item::priority_ordering`]:
/// comparing the other way round mirrors the result.
pub proof fn lemma_priority_ordering_mirrored(a: Item, b: Item)
    ensures
        a.priority_ordering(&b) == Ordering::Less <==> b.priority_ordering(&a)
            == Ordering::Greater,
        a.priority_ordering(&b) == Ordering::Equal <==> b.priority_ordering(&a)
            == Ordering::Equal,
{
}

} // verus!
