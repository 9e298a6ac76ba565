use vstd::prelude::*;

verus! {

/// Which side of the book an order stands on.
#[derive(Debug, Clone, Copy, PartialEq, Eq, Structural)]
pub enum Side {
    Bid,
    Ask,
}

impl Side {
    /// The side that an order of this side trades against.
    pub open spec fn opposite(self) -> Side {
        match self {
            Side::Bid => Side::Ask,
            Side::Ask => Side::Bid,
        }
    }

    pub fn is_bid(&self) -> (r: bool)
        ensures
            r == (*self == Side::Bid),
    {
        match self {
            Side::Bid => true,
            Side::Ask => false,
        }
    }
}

/// Where an order is in its lifecycle. `Pending` is the only state that can
/// change; the other three are final.
#[derive(Debug, Clone, Copy, PartialEq, Eq, Structural)]
pub enum OrderStatus {
    Pending,
    Filled,
    Cancelled,
    Failed,
}

impl OrderStatus {
    pub open spec fn is_terminal(self) -> bool {
        self != OrderStatus::Pending
    }

    pub fn is_pending(&self) -> (r: bool)
        ensures
            r == (*self == OrderStatus::Pending),
    {
        match self {
            OrderStatus::Pending => true,
            _ => false,
        }
    }
}

/// One order of the ledger. `price` is the limit price and `size` the size
/// that is still open, both as integers of the instrument's smallest unit.
#[derive(Debug, Clone)]
pub struct Order {
    pub order_id: usize,
    pub user_name: String,
    pub price: u64,
    pub size: u64,
    pub side: Side,
    pub status: OrderStatus,
}

/// Book priority on `side`: the better price first (highest bid, lowest ask),
/// and among equal prices the earlier order, by order id.
pub open spec fn ranks_before(side: Side, a_price: u64, a_id: usize, b_price: u64, b_id: usize) -> bool {
    match side {
        Side::Bid => a_price > b_price || (a_price == b_price && a_id < b_id),
        Side::Ask => a_price < b_price || (a_price == b_price && a_id < b_id),
    }
}

/// Whether an incoming order on `side` at `price` trades with a resting order
/// at `resting_price`.
pub open spec fn crosses(side: Side, price: u64, resting_price: u64) -> bool {
    match side {
        Side::Bid => price >= resting_price,
        Side::Ask => price <= resting_price,
    }
}

/// The funds that a live order holds back: its limit price times its open size.
pub open spec fn reservation(o: Order) -> int {
    if o.status == OrderStatus::Pending {
        o.price * o.size
    } else {
        0
    }
}

impl Order {
    /// Whether `self` comes before `other` in the book of `self`'s side.
    pub fn precedes(&self, other: &Order) -> (r: bool)
        ensures
            r == ranks_before(self.side, self.price, self.order_id, other.price, other.order_id),
    {
        match self.side {
            Side::Bid => self.price > other.price || (self.price == other.price
                && self.order_id < other.order_id),
            Side::Ask => self.price < other.price || (self.price == other.price
                && self.order_id < other.order_id),
        }
    }

    /// A copy of the order, field for field.
    pub fn duplicate(&self) -> (r: Order)
        ensures
            r == *self,
    {
        Order {
            order_id: self.order_id,
            user_name: self.user_name.clone(),
            price: self.price,
            size: self.size,
            side: self.side,
            status: self.status,
        }
    }
}

/// Two orders are the same order exactly when their ids agree.
impl PartialEq for Order {
    fn eq(&self, other: &Order) -> (r: bool) {
        self.order_id == other.order_id
    }
}

impl vstd::std_specs::cmp::PartialEqSpecImpl for Order {
    open spec fn obeys_eq_spec() -> bool {
        true
    }

    open spec fn eq_spec(&self, other: &Order) -> bool {
        self.order_id == other.order_id
    }
}

/// What a client asks of the engine.
#[derive(Debug, Clone, PartialEq, Eq)]
pub enum Request {
    PlaceOrder { user_name: String, price: u64, size: u64, side: Side },
    CancelOrder { order_id: usize },
    Deposit { user: String, amount: i64 },
    CreateUser { name: String },
}

/// What the engine reports back, in the order the changes happened.
#[derive(Debug, Clone, PartialEq, Eq)]
pub enum Update {
    /// An order changed state.
    Order { user_name: String, order_id: usize, status: OrderStatus },
    /// A trade took place, at the resting order's price.
    Trade { price: u64, size: u64 },
    Deposit { user_name: String, amount: i64, success: bool },
    CreateUser { user_name: String, success: bool },
}

/// The total size of the trades among `us`.
pub open spec fn trade_volume(us: Seq<Update>) -> int
    decreases us.len(),
{
    if us.len() == 0 {
        0
    } else {
        trade_volume(us.drop_last()) + match us.last() {
            Update::Trade { size, .. } => size as int,
            _ => 0int,
        }
    }
}

pub proof fn lemma_trade_volume_push(us: Seq<Update>, u: Update)
    ensures
        trade_volume(us.push(u)) == trade_volume(us) + match u {
            Update::Trade { size, .. } => size as int,
            _ => 0int,
        },
{
    assert(us.push(u).drop_last() =~= us);
}

impl Update {
    /// Whether the update, where it reports an order, reports a fill that
    /// `orders` shows.
    pub open spec fn fill_recorded(self, orders: Seq<Order>) -> bool {
        match self {
            Update::Order { order_id, status, .. } => status == OrderStatus::Filled && order_id
                < orders.len() && orders[order_id as int].status == OrderStatus::Filled,
            _ => true,
        }
    }

    /// Whether the update, if it is a trade, is at a price that an order on
    /// `side` with limit `price` accepts.
    pub open spec fn within_limit(self, side: Side, price: u64) -> bool {
        match self {
            Update::Trade { price: p, .. } => crosses(side, price, p),
            _ => true,
        }
    }

    /// Whether the update reports a change of the order `id`.
    pub open spec fn concerns(self, id: usize) -> bool {
        match self {
            Update::Order { order_id, .. } => order_id == id,
            _ => false,
        }
    }
}

} // verus!
