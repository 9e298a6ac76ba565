use vstd::prelude::*;

use crate::ledger::{
    add_to, all_nonneg, balance_of, ensure_account, has_account, lemma_sum_ge_two_terms,
    lemma_sum_nonneg, lemma_sum_push, lemma_sum_update, names_unique, sum, take_from,
    total_balance, Account,
};
use crate::types::{
    crosses, lemma_trade_volume_push, ranks_before, reservation, trade_volume, Order, OrderStatus,
    Request, Side, Update,
};

verus! {

/// The engine's whole state: the order ledger, the account ledger, and the
/// book, whose two sides hold ids of resting orders in matching priority.
pub struct Exchange {
    pub bids: Vec<usize>,
    pub asks: Vec<usize>,
    pub accounts: Vec<Account>,
    pub orders: Vec<Order>,
    /// The sum of all successful deposits.
    pub total_deposited: u64,
}

/// The funds held back by all live orders together.
pub open spec fn total_reserved(orders: Seq<Order>) -> int {
    sum(reservations(orders))
}

/// Each order's reservation, in order-id order.
pub open spec fn reservations(orders: Seq<Order>) -> Seq<int> {
    orders.map_values(|o: Order| reservation(o))
}

/// Every order sits at its own id; a live order has size left, a filled one none.
pub open spec fn orders_wf(orders: Seq<Order>) -> bool {
    forall|i: int|
        0 <= i < orders.len() ==> {
            &&& (#[trigger] orders[i]).order_id == i
            &&& orders[i].status == OrderStatus::Pending ==> orders[i].size > 0
            &&& orders[i].status == OrderStatus::Filled ==> orders[i].size == 0
            &&& orders[i].status == OrderStatus::Cancelled ==> orders[i].size > 0
        }
}

/// One side of the book: ids of live orders of that side, strictly in
/// priority (price, then arrival).
pub open spec fn book_wf(book: Seq<usize>, orders: Seq<Order>, side: Side) -> bool {
    &&& forall|i: int|
        0 <= i < book.len() ==> {
            &&& #[trigger] book[i] < orders.len()
            &&& orders[book[i] as int].status == OrderStatus::Pending
            &&& orders[book[i] as int].side == side
        }
    &&& forall|i: int, j: int|
        0 <= i < j < book.len() ==> ranks_before(
            side,
            orders[#[trigger] book[i] as int].price,
            book[i],
            orders[#[trigger] book[j] as int].price,
            book[j],
        )
}

pub open spec fn book_holds(book: Seq<usize>, id: usize) -> bool {
    exists|i: int| 0 <= i < book.len() && book[i] == id
}

/// What user `n` receives from one trade of size `q` at price `rp` between an
/// incoming order (`side`, limit `price`, of `owner`) and a resting order of
/// `resting_owner`: the buyer gets back the part of its reservation above the
/// trade price, the seller its reservation and the trade's value.
pub open spec fn payout(
    n: Seq<char>,
    side: Side,
    price: u64,
    owner: Seq<char>,
    rp: u64,
    resting_owner: Seq<char>,
    q: u64,
) -> int {
    let bid_limit: int = if side == Side::Bid { price as int } else { rp as int };
    let ask_limit: int = if side == Side::Bid { rp as int } else { price as int };
    let buyer = if side == Side::Bid { owner } else { resting_owner };
    let seller = if side == Side::Bid { resting_owner } else { owner };
    (if n == buyer { (bid_limit - rp) * q } else { 0 }) + (if n == seller { (ask_limit + rp) * q } else { 0 })
}

proof fn lemma_mul_nonneg(a: int, b: int)
    requires
        a >= 0,
        b >= 0,
    ensures
        a * b >= 0,
{
    assert(a * b >= 0) by (nonlinear_arith)
        requires
            a >= 0,
            b >= 0,
    ;
}

proof fn lemma_mul_mono(a: int, b: int, c: int)
    requires
        a >= 0,
        0 <= b <= c,
    ensures
        a * b <= a * c,
{
    assert(a * b <= a * c) by (nonlinear_arith)
        requires
            a >= 0,
            0 <= b <= c,
    ;
}

proof fn lemma_mul_distrib(a: int, b: int, c: int)
    ensures
        a * (b - c) == a * b - a * c,
        (b - c) * a == b * a - c * a,
        (b + c) * a == b * a + c * a,
{
    assert(a * (b - c) == a * b - a * c) by (nonlinear_arith);
    assert((b - c) * a == b * a - c * a) by (nonlinear_arith);
    assert((b + c) * a == b * a + c * a) by (nonlinear_arith);
}

proof fn lemma_reservations_nonneg(orders: Seq<Order>)
    ensures
        all_nonneg(reservations(orders)),
{
    assert forall|i: int| 0 <= i < orders.len() implies #[trigger] reservations(orders)[i] >= 0 by {
        lemma_mul_nonneg(orders[i].price as int, orders[i].size as int);
    }
}

proof fn lemma_reserved_update(orders: Seq<Order>, k: int, o: Order)
    requires
        0 <= k < orders.len(),
    ensures
        total_reserved(orders.update(k, o)) == total_reserved(orders) - reservation(orders[k])
            + reservation(o),
{
    let m = reservations(orders);
    assert(reservations(orders.update(k, o)) =~= m.update(k, reservation(o)));
    lemma_sum_update(m, k, reservation(o));
}

proof fn lemma_reserved_push(orders: Seq<Order>, o: Order)
    ensures
        total_reserved(orders.push(o)) == total_reserved(orders) + reservation(o),
{
    let m = reservations(orders);
    assert(reservations(orders.push(o)) =~= m.push(reservation(o)));
    lemma_sum_push(m, reservation(o));
}

/// Two distinct live orders hold back no more than all orders together.
proof fn lemma_reserved_two(orders: Seq<Order>, a: int, b: int)
    requires
        0 <= a < orders.len(),
        0 <= b < orders.len(),
        a != b,
    ensures
        reservation(orders[a]) + reservation(orders[b]) <= total_reserved(orders),
        total_reserved(orders) >= 0,
{
    let m = reservations(orders);
    lemma_reservations_nonneg(orders);
    lemma_sum_ge_two_terms(m, a, b);
    lemma_sum_nonneg(m);
}

proof fn lemma_reserved_nonneg(orders: Seq<Order>)
    ensures
        total_reserved(orders) >= 0,
{
    lemma_reservations_nonneg(orders);
    lemma_sum_nonneg(reservations(orders));
}

/// One order holds back no more than all orders together.
proof fn lemma_reserved_one(orders: Seq<Order>, a: int)
    requires
        0 <= a < orders.len(),
    ensures
        reservation(orders[a]) <= total_reserved(orders),
        reservation(orders[a]) >= 0,
{
    lemma_reservations_nonneg(orders);
    crate::ledger::lemma_sum_ge_term(reservations(orders), a);
}

/// A side of the book stays well formed when an order outside it changes.
proof fn lemma_book_other_changes(book: Seq<usize>, orders: Seq<Order>, side: Side, k: int, o: Order)
    requires
        book_wf(book, orders, side),
        0 <= k < orders.len(),
        !book_holds(book, k as usize),
    ensures
        book_wf(book, orders.update(k, o), side),
{
    assert forall|i: int| 0 <= i < book.len() implies orders.update(k, o)[#[trigger] book[i] as int]
        == orders[book[i] as int] by {
        assert(book[i] != k);
    }
}

/// A side of the book stays well formed when one of its orders changes size only.
proof fn lemma_book_resize(book: Seq<usize>, orders: Seq<Order>, side: Side, k: int, o: Order)
    requires
        book_wf(book, orders, side),
        0 <= k < orders.len(),
        o.price == orders[k].price,
        o.side == orders[k].side,
        o.status == orders[k].status,
    ensures
        book_wf(book, orders.update(k, o), side),
{
    let o2 = orders.update(k, o);
    assert forall|i: int| 0 <= i < book.len() implies o2[#[trigger] book[i] as int].price
        == orders[book[i] as int].price && o2[book[i] as int].side == orders[book[i] as int].side
        && o2[book[i] as int].status == orders[book[i] as int].status by {
        assert(book[i] < orders.len());
    }
}

/// Removing an entry keeps a side of the book well formed.
proof fn lemma_book_remove(book: Seq<usize>, orders: Seq<Order>, side: Side, k: int)
    requires
        book_wf(book, orders, side),
        0 <= k < book.len(),
    ensures
        book_wf(book.remove(k), orders, side),
        !book_holds(book.remove(k), book[k]),
{
    let b2 = book.remove(k);
    book.remove_ensures(k);
    assert forall|i: int, j: int| 0 <= i < j < b2.len() implies ranks_before(
        side,
        orders[#[trigger] b2[i] as int].price,
        b2[i],
        orders[#[trigger] b2[j] as int].price,
        b2[j],
    ) by {
        let ii = if i < k { i } else { i + 1 };
        let jj = if j < k { j } else { j + 1 };
        assert(b2[i] == book[ii]);
        assert(b2[j] == book[jj]);
    }
    if book_holds(b2, book[k]) {
        let i = choose|i: int| 0 <= i < b2.len() && b2[i] == book[k];
        let ii = if i < k { i } else { i + 1 };
        assert(b2[i] == book[ii]);
        if ii < k {
            assert(ranks_before(side, orders[book[ii] as int].price, book[ii], orders[book[k] as int].price, book[k]));
        } else {
            assert(ranks_before(side, orders[book[k] as int].price, book[k], orders[book[ii] as int].price, book[ii]));
        }
    }
}

/// An order of one side never stands in the book of the other.
proof fn lemma_not_in_other_side(book: Seq<usize>, orders: Seq<Order>, side: Side, k: usize)
    requires
        book_wf(book, orders, side),
        k < orders.len(),
        orders[k as int].side != side,
    ensures
        !book_holds(book, k),
{
    if book_holds(book, k) {
        let i = choose|i: int| 0 <= i < book.len() && book[i] == k;
        assert(book[i] < orders.len());
        assert(orders[book[i] as int].side == side);
    }
}

/// Where `id` stands in `book`, if it does.
fn position(book: &Vec<usize>, id: usize) -> (r: Option<usize>)
    ensures
        match r {
            Some(i) => i < book@.len() && book@[i as int] == id,
            None => !book_holds(book@, id),
        },
{
    let mut i: usize = 0;
    while i < book.len()
        invariant
            i <= book@.len(),
            forall|j: int| 0 <= j < i ==> book@[j] != id,
        decreases book@.len() - i,
    {
        if book[i] == id {
            return Some(i);
        }
        i = i + 1;
    }
    None
}

proof fn lemma_holds_after_remove(b: Seq<usize>, p: int, x: usize)
    requires
        0 <= p < b.len(),
        book_holds(b, x),
        b[p] != x,
    ensures
        book_holds(b.remove(p), x),
{
    let i = choose|i: int| 0 <= i < b.len() && b[i] == x;
    b.remove_ensures(p);
    if i < p {
        assert(b.remove(p)[i] == x);
    } else {
        assert(b.remove(p)[i - 1] == x);
    }
}

proof fn lemma_holds_after_insert(b: Seq<usize>, pos: int, id: usize, x: usize)
    requires
        0 <= pos <= b.len(),
        book_holds(b, x),
    ensures
        book_holds(b.insert(pos, id), x),
{
    let i = choose|i: int| 0 <= i < b.len() && b[i] == x;
    b.insert_ensures(pos, id);
    if i < pos {
        assert(b.insert(pos, id)[i] == x);
    } else {
        assert(b.insert(pos, id)[i + 1] == x);
    }
}

/// Removing an entry leaves the first place to an order that is no better.
proof fn lemma_front_no_better(book: Seq<usize>, orders: Seq<Order>, side: Side, p: int)
    requires
        book_wf(book, orders, side),
        0 <= p < book.len(),
        book.len() > 1,
    ensures
        book.remove(p)[0] == book[0] || ranks_before(
            side,
            orders[book[0] as int].price,
            book[0],
            orders[book.remove(p)[0] as int].price,
            book.remove(p)[0],
        ),
{
    book.remove_ensures(p);
    if p == 0 {
        assert(book.remove(0)[0] == book[1]);
        assert(ranks_before(side, orders[book[0] as int].price, book[0], orders[book[1] as int].price, book[1]));
    } else {
        assert(book.remove(p)[0] == book[0]);
    }
}

/// A new order at the end of the ledger leaves the book well formed.
proof fn lemma_book_push(book: Seq<usize>, orders: Seq<Order>, side: Side, o: Order)
    requires
        book_wf(book, orders, side),
        orders.len() <= usize::MAX,
    ensures
        book_wf(book, orders.push(o), side),
        !book_holds(book, orders.len() as usize),
{
    assert forall|i: int| 0 <= i < book.len() implies orders.push(o)[#[trigger] book[i] as int]
        == orders[book[i] as int] by {
        assert(book[i] < orders.len());
    }
    if book_holds(book, orders.len() as usize) {
        let i = choose|i: int| 0 <= i < book.len() && book[i] == orders.len() as usize;
        assert(book[i] < orders.len());
    }
}

/// Inserting an order where priority puts it keeps a side of the book well formed.
proof fn lemma_book_insert(book: Seq<usize>, orders: Seq<Order>, side: Side, pos: int, id: usize)
    requires
        book_wf(book, orders, side),
        id < orders.len(),
        orders[id as int].status == OrderStatus::Pending,
        orders[id as int].side == side,
        !book_holds(book, id),
        0 <= pos <= book.len(),
        forall|i: int|
            0 <= i < pos ==> ranks_before(
                side,
                orders[#[trigger] book[i] as int].price,
                book[i],
                orders[id as int].price,
                id,
            ),
        pos < book.len() ==> !ranks_before(
            side,
            orders[book[pos] as int].price,
            book[pos],
            orders[id as int].price,
            id,
        ),
    ensures
        book_wf(book.insert(pos, id), orders, side),
        book_holds(book.insert(pos, id), id),
{
    book.insert_ensures(pos, id);
    let b2 = book.insert(pos, id);
    let p = orders[id as int].price;
    assert forall|j: int| pos <= j < book.len() implies ranks_before(
        side,
        p,
        id,
        orders[#[trigger] book[j] as int].price,
        book[j],
    ) by {
        assert(book[pos] != id);
        if j > pos {
            assert(ranks_before(
                side,
                orders[book[pos] as int].price,
                book[pos],
                orders[book[j] as int].price,
                book[j],
            ));
        }
    }
    assert forall|i: int| 0 <= i < b2.len() implies {
        &&& #[trigger] b2[i] < orders.len()
        &&& orders[b2[i] as int].status == OrderStatus::Pending
        &&& orders[b2[i] as int].side == side
    } by {
        if i < pos {
            assert(b2[i] == book[i]);
        } else if i > pos {
            assert(b2[i] == book[i - 1]);
        }
    }
    assert forall|i: int, j: int| 0 <= i < j < b2.len() implies ranks_before(
        side,
        orders[#[trigger] b2[i] as int].price,
        b2[i],
        orders[#[trigger] b2[j] as int].price,
        b2[j],
    ) by {
        if j < pos {
            assert(b2[i] == book[i] && b2[j] == book[j]);
        } else if j == pos {
            assert(b2[i] == book[i]);
        } else if i < pos {
            assert(b2[i] == book[i] && b2[j] == book[j - 1]);
            assert(ranks_before(side, orders[book[i] as int].price, book[i], p, id));
            assert(ranks_before(side, p, id, orders[book[j - 1] as int].price, book[j - 1]));
        } else if i == pos {
            assert(b2[j] == book[j - 1]);
        } else {
            assert(b2[i] == book[i - 1] && b2[j] == book[j - 1]);
        }
    }
    assert(b2[pos] == id);
}

/// What `create_user` does.
pub open spec fn user_created(pre: Exchange, post: Exchange, user_name: String, updates: Seq<Update>) -> bool {
    &&& post.wf()
    &&& updates =~= seq![
        Update::CreateUser {
            user_name: user_name,
            success: !has_account(pre.accounts@, user_name@),
        }
    ]
    &&& has_account(post.accounts@, user_name@)
    &&& forall|n: Seq<char>|
        #[trigger] has_account(post.accounts@, n) == (has_account(
            pre.accounts@,
            n,
        ) || n == user_name@)
    &&& forall|n: Seq<char>|
        #[trigger] balance_of(post.accounts@, n) == balance_of(pre.accounts@, n)
    &&& post.orders@ == pre.orders@
    &&& post.bids@ == pre.bids@
    &&& post.asks@ == pre.asks@
    &&& post.total_deposited == pre.total_deposited
}

/// What `deposit` does.
pub open spec fn deposited(pre: Exchange, post: Exchange, user_name: String, amount: i64, updates: Seq<Update>) -> bool {
    &&& post.wf()
    &&& ({
        let success = amount >= 0 && pre.total_deposited + amount <= u64::MAX;
        &&& updates =~= seq![
            Update::Deposit { user_name: user_name, amount: amount, success: success },
        ]
        &&& success ==> {
            &&& balance_of(post.accounts@, user_name@) == balance_of(
                pre.accounts@,
                user_name@,
            ) + amount
            &&& forall|n: Seq<char>|
                n != user_name@ ==> #[trigger] balance_of(post.accounts@, n)
                    == balance_of(pre.accounts@, n)
            &&& forall|n: Seq<char>|
                #[trigger] has_account(post.accounts@, n) == (has_account(
                    pre.accounts@,
                    n,
                ) || n == user_name@)
            &&& post.total_deposited == pre.total_deposited + amount
            &&& post.orders@ == pre.orders@
            &&& post.bids@ == pre.bids@
            &&& post.asks@ == pre.asks@
        }
        &&& !success ==> post == pre
    })
}

/// What `cancel_order` does.
pub open spec fn cancelled(pre: Exchange, post: Exchange, order_id: usize, updates: Seq<Update>) -> bool {
    &&& post.wf()
    &&& order_id >= pre.orders@.len() || pre.orders@[order_id as int].status
        != OrderStatus::Pending ==> post == pre && updates.len() == 0
    &&& order_id < pre.orders@.len() && pre.orders@[order_id as int].status
        == OrderStatus::Pending ==> ({
        let o = pre.orders@[order_id as int];
        &&& post.orders@ == pre.orders@.update(
            order_id as int,
            Order { status: OrderStatus::Cancelled, ..o },
        )
        &&& balance_of(post.accounts@, o.user_name@) == balance_of(
            pre.accounts@,
            o.user_name@,
        ) + o.price * o.size
        &&& forall|n: Seq<char>|
            n != o.user_name@ ==> #[trigger] balance_of(post.accounts@, n)
                == balance_of(pre.accounts@, n)
        &&& !book_holds(post.book(o.side), order_id)
        &&& book_holds(pre.book(o.side), order_id) ==> exists|p: int|
            0 <= p < pre.book(o.side).len() && pre.book(o.side)[p] == order_id
                && post.book(o.side) == #[trigger] pre.book(o.side).remove(p)
        &&& !book_holds(pre.book(o.side), order_id) ==> post.book(o.side)
            == pre.book(o.side)
        &&& post.book(o.side.opposite()) == pre.book(o.side.opposite())
        &&& post.total_deposited == pre.total_deposited
        &&& updates =~= seq![
            Update::Order {
                user_name: o.user_name,
                order_id: order_id,
                status: OrderStatus::Cancelled,
            },
        ]
    })
}

/// What `place_order` does.
pub open spec fn placed(pre: Exchange, post: Exchange, user_name: String, price: u64, size: u64, side: Side, updates: Seq<Update>) -> bool {
    &&& post.wf()
    &&& post.orders@.len() == pre.orders@.len() + 1
    &&& post.total_deposited == pre.total_deposited
    &&& ({
        let id = pre.orders@.len() as usize;
        let f = post.orders@[id as int];
        let valid = price > 0 && size > 0;
        let funded = balance_of(pre.accounts@, user_name@) >= price * size;
        let other = side.opposite();
        let crossing_at_entry = pre.book(other).len() > 0 && crosses(
            side,
            price,
            pre.orders@[pre.book(other)[0] as int].price,
        );
        &&& f.order_id == id
        &&& f.user_name == user_name
        &&& f.price == price
        &&& f.side == side
        &&& forall|i: int|
            0 <= i < pre.orders@.len() && pre.orders@[i].status.is_terminal()
                ==> #[trigger] post.orders@[i] == pre.orders@[i]
        &&& forall|j: int, i: usize|
            0 <= j < updates.len() && i < pre.orders@.len() && pre.orders@[i as int].status.is_terminal() ==> !#[trigger] updates[j].concerns(i)
        &&& !(valid && funded) ==> {
            &&& f.status == OrderStatus::Failed
            &&& f.size == size
            &&& post.orders@ == pre.orders@.push(f)
            &&& post.bids@ == pre.bids@
            &&& post.asks@ == pre.asks@
            &&& forall|n: Seq<char>|
                #[trigger] balance_of(post.accounts@, n) == balance_of(
                    pre.accounts@,
                    n,
                )
            &&& updates =~= seq![
                Update::Order {
                    user_name: user_name,
                    order_id: id,
                    status: OrderStatus::Failed,
                },
            ]
        }
        &&& (valid && funded) ==> {
            &&& f.size <= size
            &&& f.status == (if f.size == 0 {
                OrderStatus::Filled
            } else {
                OrderStatus::Pending
            })
            &&& updates.len() >= 2
            &&& trade_volume(updates) == size - f.size
            &&& forall|j: int| 0 <= j < updates.len() ==> (#[trigger] updates[j]).within_limit(side, price)
            &&& updates[0] == Update::Order {
                user_name: user_name,
                order_id: id,
                status: OrderStatus::Pending,
            }
            &&& updates.last() == Update::Order {
                user_name: user_name,
                order_id: id,
                status: f.status,
            }
            &&& forall|j: int|
                1 <= j < updates.len() - 1 ==> !(#[trigger] updates[j]).concerns(id)
                    && updates[j].fill_recorded(post.orders@)
            &&& f.status == OrderStatus::Filled ==> post.book(side) == pre.book(side)
            &&& f.status == OrderStatus::Pending ==> exists|pos: int|
                0 <= pos <= pre.book(side).len() && post.book(side)
                    == #[trigger] pre.book(side).insert(pos, id)
            &&& exists|k: int|
                0 <= k <= pre.book(other).len() && post.book(other)
                    == #[trigger] pre.book(other).subrange(k, pre.book(other).len() as int)
                    && forall|j: int|
                    0 <= j < k ==> post.orders@[#[trigger] pre.book(other)[j] as int].status
                        == OrderStatus::Filled && post.orders@[pre.book(other)[j] as int].size == 0
            &&& f.status == OrderStatus::Pending ==> {
                &&& book_holds(post.book(side), id)
                &&& (post.book(other).len() == 0 || !crosses(
                    side,
                    price,
                    post.orders@[post.book(other)[0] as int].price,
                ))
            }
            &&& crossing_at_entry ==> {
                let r = pre.orders@[pre.book(other)[0] as int];
                &&& updates[1] == Update::Trade {
                    price: r.price,
                    size: if size < r.size { size } else { r.size },
                }
                &&& size >= r.size ==> post.orders@[pre.book(other)[0] as int].status
                    == OrderStatus::Filled
                &&& size <= r.size ==> {
                    &&& f.status == OrderStatus::Filled
                    &&& updates =~= seq![
                        Update::Order { user_name: user_name, order_id: id, status: OrderStatus::Pending },
                        Update::Trade { price: r.price, size: size },
                    ] + (if r.size == size {
                        seq![
                            Update::Order {
                                user_name: r.user_name,
                                order_id: pre.book(other)[0],
                                status: OrderStatus::Filled,
                            },
                        ]
                    } else {
                        Seq::empty()
                    }) + seq![Update::Order { user_name: user_name, order_id: id, status: OrderStatus::Filled }]
                    &&& forall|n: Seq<char>|
                        #[trigger] balance_of(post.accounts@, n) == balance_of(
                            pre.accounts@,
                            n,
                        ) - (if n == user_name@ { price * size } else { 0 }) + payout(
                            n,
                            side,
                            price,
                            user_name@,
                            r.price,
                            r.user_name@,
                            size,
                        )
                }
            }
            &&& !crossing_at_entry ==> {
                &&& f.size == size
                &&& f.status == OrderStatus::Pending
                &&& balance_of(post.accounts@, user_name@) == balance_of(
                    pre.accounts@,
                    user_name@,
                ) - price * size
                &&& forall|n: Seq<char>|
                    n != user_name@ ==> #[trigger] balance_of(post.accounts@, n)
                        == balance_of(pre.accounts@, n)
                &&& post.book(other) == pre.book(other)
                &&& post.orders@ == pre.orders@.push(f)
                &&& updates.len() == 2
            }
        }
    })
}

/// The invariant does not depend on the accounts beyond `wf_core`.
proof fn lemma_wf_accounts_only(a: Exchange, b: Exchange)
    requires
        a.wf(),
        b.wf_core(),
        b.orders == a.orders,
        b.bids == a.bids,
        b.asks == a.asks,
    ensures
        b.wf(),
{
    reveal(Exchange::live_in_book_except);
    reveal(Exchange::uncrossed);
}

/// Admitting a new order at the end of the ledger keeps every other live
/// order in the book.
proof fn lemma_live_after_admit(a: Exchange, b: Exchange)
    requires
        a.wf(),
        b.orders@.len() == a.orders@.len() + 1,
        forall|i: int| 0 <= i < a.orders@.len() ==> #[trigger] b.orders@[i] == a.orders@[i],
        b.bids == a.bids,
        b.asks == a.asks,
    ensures
        b.live_in_book_except(a.orders@.len() as int),
        b.uncrossed(),
{
    reveal(Exchange::live_in_book_except);
    reveal(Exchange::uncrossed);
    assert forall|i: int|
        0 <= i < b.orders@.len() && i != a.orders@.len() && (#[trigger] b.orders@[i]).status
            == OrderStatus::Pending implies book_holds(b.book(b.orders@[i].side), i as usize) by {
        assert(b.orders@[i] == a.orders@[i]);
    }
    if a.bids@.len() > 0 && a.asks@.len() > 0 {
        assert(a.bids@[0] < a.orders@.len());
        assert(a.asks@[0] < a.orders@.len());
    }
}

/// Once the incoming order is no longer live, every live order is in the book.
proof fn lemma_live_when_done(ex: Exchange, id: int)
    requires
        ex.live_in_book_except(id),
        0 <= id < ex.orders@.len(),
        ex.orders@[id].status != OrderStatus::Pending,
    ensures
        ex.live_in_book_except(-1),
{
    reveal(Exchange::live_in_book_except);
}

impl Exchange {
    /// The book side that holds resting orders of `side`.
    pub open spec fn book(self, side: Side) -> Seq<usize> {
        match side {
            Side::Bid => self.bids@,
            Side::Ask => self.asks@,
        }
    }

    /// The state's invariant: ledgers and book agree, and the funds in free
    /// balances and in reservations add up to everything deposited.
    pub open spec fn wf(self) -> bool {
        &&& self.wf_core()
        &&& self.live_in_book_except(-1)
        &&& self.uncrossed()
    }

    /// Every live order, but the one at `skip`, stands in the book of its side.
    #[verifier::opaque]
    pub open spec fn live_in_book_except(self, skip: int) -> bool {
        forall|i: int|
            0 <= i < self.orders@.len() && i != skip && (#[trigger] self.orders@[i]).status
                == OrderStatus::Pending ==> book_holds(self.book(self.orders@[i].side), i as usize)
    }

    /// The best bid is below the best ask.
    #[verifier::opaque]
    pub open spec fn uncrossed(self) -> bool {
        self.bids@.len() > 0 && self.asks@.len() > 0 ==> self.orders@[self.bids@[0] as int].price
            < self.orders@[self.asks@[0] as int].price
    }

    /// The invariant without the two facts that tie live orders to the book.
    pub open spec fn wf_core(self) -> bool {
        &&& orders_wf(self.orders@)
        &&& book_wf(self.bids@, self.orders@, Side::Bid)
        &&& book_wf(self.asks@, self.orders@, Side::Ask)
        &&& names_unique(self.accounts@)
        &&& total_balance(self.accounts@) + total_reserved(self.orders@) == self.total_deposited
    }

    /// An empty exchange: no accounts, no orders, an empty book.
    pub fn new() -> (r: Exchange)
        ensures
            r.wf(),
            r.bids@.len() == 0,
            r.asks@.len() == 0,
            r.accounts@.len() == 0,
            r.orders@.len() == 0,
            r.total_deposited == 0,
    {
        proof {
            reveal(Exchange::live_in_book_except);
            reveal(Exchange::uncrossed);
        }
        let r = Exchange {
            bids: Vec::new(),
            asks: Vec::new(),
            accounts: Vec::new(),
            orders: Vec::new(),
            total_deposited: 0,
        };
        assert(r.accounts@.map_values(|a: Account| a.balance as int) =~= Seq::<int>::empty());
        assert(reservations(r.orders@) =~= Seq::<int>::empty());
        r
    }

    /// The free funds of `user_name`: zero for a user without an account.
    pub fn balance(&self, user_name: &String) -> (r: u64)
        requires
            self.wf(),
        ensures
            r == balance_of(self.accounts@, user_name@),
    {
        match crate::ledger::find_account(&self.accounts, user_name) {
            Some(k) => {
                proof {
                    crate::ledger::lemma_balance_of_account(self.accounts@, k as int);
                }
                self.accounts[k].balance
            },
            None => {
                proof {
                    crate::ledger::lemma_balance_of_absent(self.accounts@, user_name@);
                }
                0
            },
        }
    }

    /// Opens an account with no funds for `user_name`. Succeeds only where the
    /// user had none; an existing account is left as it was.
    pub fn create_user(&mut self, user_name: String) -> (updates: Vec<Update>)
        requires
            old(self).wf(),
        ensures
            user_created(*old(self), *final(self), user_name, updates@),
    {
        proof {
            reveal(Exchange::live_in_book_except);
            reveal(Exchange::uncrossed);
        }
        let (_, existed) = ensure_account(&mut self.accounts, &user_name);
        vec![Update::CreateUser { user_name, success: !existed }]
    }

    /// Credits `amount` to `user_name`, opening the account where needed.
    /// Fails, changing nothing, on a negative amount, or where the funds held
    /// by the exchange would no longer fit in a `u64`.
    pub fn deposit(&mut self, user_name: String, amount: i64) -> (updates: Vec<Update>)
        requires
            old(self).wf(),
        ensures
            deposited(*old(self), *final(self), user_name, amount, updates@),
    {
        proof {
            reveal(Exchange::live_in_book_except);
            reveal(Exchange::uncrossed);
        }
        if amount < 0 || amount as u64 > u64::MAX - self.total_deposited {
            return vec![Update::Deposit { user_name, amount, success: false }];
        }
        let credit = amount as u64;
        let (k, _) = ensure_account(&mut self.accounts, &user_name);
        proof {
            lemma_reserved_nonneg(self.orders@);
        }
        add_to(&mut self.accounts, k, credit);
        self.total_deposited = self.total_deposited + credit;
        vec![Update::Deposit { user_name, amount, success: true }]
    }

    /// Cancels a live order: it leaves the book, its reservation goes back to
    /// its owner, and it becomes `Cancelled`. An unknown order, or one that is
    /// no longer live, is left alone and nothing is reported.
    pub fn cancel_order(&mut self, order_id: usize) -> (updates: Vec<Update>)
        requires
            old(self).wf(),
        ensures
            cancelled(*old(self), *final(self), order_id, updates@),
    {
        proof {
            reveal(Exchange::live_in_book_except);
            reveal(Exchange::uncrossed);
        }
        if order_id >= self.orders.len() || !self.orders[order_id].status.is_pending() {
            return Vec::new();
        }
        let ghost o = self.orders@[order_id as int];
        let ghost s0 = *self;
        let ghost mut rm: int = -1;
        let is_bid = self.orders[order_id].side.is_bid();
        if is_bid {
            proof {
                lemma_not_in_other_side(self.asks@, self.orders@, Side::Ask, order_id);
            }
            match position(&self.bids, order_id) {
                Some(i) => {
                    proof {
                        lemma_book_remove(self.bids@, self.orders@, Side::Bid, i as int);
                    }
                    self.bids.remove(i);
                    proof {
                        rm = i as int;
                    }
                },
                None => {},
            }
        } else {
            proof {
                lemma_not_in_other_side(self.bids@, self.orders@, Side::Bid, order_id);
            }
            match position(&self.asks, order_id) {
                Some(i) => {
                    proof {
                        lemma_book_remove(self.asks@, self.orders@, Side::Ask, i as int);
                    }
                    self.asks.remove(i);
                    proof {
                        rm = i as int;
                    }
                },
                None => {},
            }
        }
        let mut cancelled = self.orders[order_id].duplicate();
        cancelled.status = OrderStatus::Cancelled;
        proof {
            lemma_reserved_one(self.orders@, order_id as int);
            crate::ledger::lemma_total_balance_nonneg(self.accounts@);
            assert(reservation(o) == cancelled.price * cancelled.size);
        }
        let refund = cancelled.price * cancelled.size;
        proof {
            lemma_reserved_update(self.orders@, order_id as int, cancelled);
            lemma_book_other_changes(self.bids@, self.orders@, Side::Bid, order_id as int, cancelled);
            lemma_book_other_changes(self.asks@, self.orders@, Side::Ask, order_id as int, cancelled);
        }
        let owner = cancelled.user_name.clone();
        self.orders.set(order_id, cancelled);
        let (k, _) = ensure_account(&mut self.accounts, &owner);
        add_to(&mut self.accounts, k, refund);
        proof {
            let sb = s0.book(o.side);
            assert(rm >= 0 ==> 0 <= rm < sb.len() && sb[rm] == order_id && self.book(o.side) == sb.remove(rm));
            assert(rm < 0 ==> self.book(o.side) == sb);
            assert forall|i: int|
                0 <= i < self.orders@.len() && i != -1 && (#[trigger] self.orders@[i]).status
                    == OrderStatus::Pending implies book_holds(self.book(self.orders@[i].side), i as usize) by {
                assert(i != order_id);
                assert(self.orders@[i] == s0.orders@[i]);
                assert(book_holds(s0.book(s0.orders@[i].side), i as usize));
                if s0.orders@[i].side == o.side && rm >= 0 {
                    lemma_holds_after_remove(sb, rm, i as usize);
                }
            }
            if rm >= 0 && sb.len() > 1 {
                lemma_front_no_better(sb, s0.orders@, o.side, rm);
                assert(sb[0] < s0.orders@.len());
                assert(sb.remove(rm)[0] == sb[rm + 1] || sb.remove(rm)[0] == sb[0]);
            }
        }
        vec![Update::Order { user_name: owner, order_id, status: OrderStatus::Cancelled }]
    }

    /// The order with id `order_id`, if there is one.
    pub fn order(&self, order_id: usize) -> (r: Option<&Order>)
        ensures
            order_id < self.orders@.len() ==> r == Some(&self.orders@[order_id as int]),
            order_id >= self.orders@.len() ==> r.is_none(),
    {
        if order_id < self.orders.len() {
            Some(&self.orders[order_id])
        } else {
            None
        }
    }

    /// The first order of the book side `side`, if it holds any.
    pub fn best(&self, side: Side) -> (r: Option<usize>)
        ensures
            self.book(side).len() == 0 ==> r.is_none(),
            self.book(side).len() > 0 ==> r == Some(self.book(side)[0]),
    {
        if side.is_bid() {
            if self.bids.len() == 0 { None } else { Some(self.bids[0]) }
        } else {
            if self.asks.len() == 0 { None } else { Some(self.asks[0]) }
        }
    }

    /// Drops the first order of the book side `side`.
    fn pop_best(&mut self, side: Side)
        requires
            old(self).book(side).len() > 0,
        ensures
            final(self).book(side) == old(self).book(side).remove(0),
            final(self).book(side.opposite()) == old(self).book(side.opposite()),
            final(self).orders == old(self).orders,
            final(self).accounts == old(self).accounts,
            final(self).total_deposited == old(self).total_deposited,
    {
        if side.is_bid() {
            self.bids.remove(0);
        } else {
            self.asks.remove(0);
        }
    }

    /// Trades the live order `id` against the first order of the other book
    /// side, at that order's price, for as much as both have open. Each order
    /// that runs out becomes `Filled`; one that rests leaves the book then.
    /// The buyer pays the trade's value out of its reservation and gets back
    /// what it had reserved beyond that; the seller gets back its reservation
    /// for the traded size, and the trade's value.
    fn trade_with_best(&mut self, id: usize, updates: &mut Vec<Update>)
        requires
            old(self).wf_core(),
            old(self).live_in_book_except(id as int),
            old(self).uncrossed(),
            id < old(self).orders@.len(),
            old(self).orders@[id as int].status == OrderStatus::Pending,
            !book_holds(old(self).book(old(self).orders@[id as int].side), id),
            old(self).book(old(self).orders@[id as int].side.opposite()).len() > 0,
            crosses(
                old(self).orders@[id as int].side,
                old(self).orders@[id as int].price,
                old(self).orders@[old(self).book(
                    old(self).orders@[id as int].side.opposite(),
                )[0] as int].price,
            ),
        ensures
            final(self).wf_core(),
            final(self).live_in_book_except(id as int),
            final(self).uncrossed(),
            final(self).orders@.len() == old(self).orders@.len(),
            ({
                let o = old(self).orders@[id as int];
                let f = final(self).orders@[id as int];
                &&& f.order_id == o.order_id
                &&& f.user_name == o.user_name
                &&& f.price == o.price
                &&& f.side == o.side
                &&& f.size < o.size
                &&& f.status == (if f.size == 0 {
                    OrderStatus::Filled
                } else {
                    OrderStatus::Pending
                })
                &&& final(self).book(o.side) == old(self).book(o.side)
            }),
            final(self).total_deposited == old(self).total_deposited,
            forall|i: int|
                0 <= i < old(self).orders@.len() && i != id && old(
                    self,
                ).orders@[i].status.is_terminal() ==> #[trigger] final(self).orders@[i] == old(
                    self,
                ).orders@[i],
            final(updates)@.len() > old(updates)@.len(),
            forall|j: int|
                0 <= j < old(updates)@.len() ==> #[trigger] final(updates)@[j] == old(updates)@[j],
            trade_volume(final(updates)@) == trade_volume(old(updates)@) + old(self).orders@[id as int].size
                - final(self).orders@[id as int].size,
            ({
                let o = old(self).orders@[id as int];
                let r = old(self).orders@[old(self).book(o.side.opposite())[0] as int];
                let q = if o.size < r.size { o.size } else { r.size };
                &&& final(updates)@[old(updates)@.len() as int] == Update::Trade { price: r.price, size: q }
                &&& final(self).orders@[id as int].size == o.size - q
                &&& final(self).orders@[old(self).book(o.side.opposite())[0] as int].size == r.size - q
                &&& final(self).orders@[old(self).book(o.side.opposite())[0] as int].status == (if r.size == q {
                    OrderStatus::Filled
                } else {
                    OrderStatus::Pending
                })
                &&& forall|n: Seq<char>|
                    #[trigger] balance_of(final(self).accounts@, n) == balance_of(old(self).accounts@, n)
                        + payout(n, o.side, o.price, o.user_name@, r.price, r.user_name@, q)
            }),
            ({
                let o = old(self).orders@[id as int];
                let other_book = old(self).book(o.side.opposite());
                let b = other_book[0];
                let r = old(self).orders@[b as int];
                let q = if o.size < r.size { o.size } else { r.size };
                &&& final(updates)@ == old(updates)@ + (if r.size == q {
                    seq![
                        Update::Trade { price: r.price, size: q },
                        Update::Order { user_name: r.user_name, order_id: b, status: OrderStatus::Filled },
                    ]
                } else {
                    seq![Update::Trade { price: r.price, size: q }]
                })
                &&& final(self).book(o.side.opposite()) == (if r.size == q {
                    other_book.subrange(1, other_book.len() as int)
                } else {
                    other_book
                })
                &&& final(self).orders@[b as int] == (Order {
                    size: (r.size - q) as u64,
                    status: if r.size == q { OrderStatus::Filled } else { OrderStatus::Pending },
                    ..r
                })
                &&& forall|i: int|
                    0 <= i < old(self).orders@.len() && i != id && i != b
                        ==> #[trigger] final(self).orders@[i] == old(self).orders@[i]
            }),
            forall|j: int|
                old(updates)@.len() <= j < final(updates)@.len() ==> (#[trigger] final(updates)@[j]).within_limit(
                    old(self).orders@[id as int].side,
                    old(self).orders@[id as int].price,
                ),
            forall|j: int, i: usize|
                old(updates)@.len() <= j < final(updates)@.len() && (i == id || (i < old(
                    self,
                ).orders@.len() && old(self).orders@[i as int].status.is_terminal()))
                    ==> !#[trigger] final(updates)@[j].concerns(i),
    {
        proof {
            reveal(Exchange::live_in_book_except);
            reveal(Exchange::uncrossed);
        }
        let ghost s0 = *self;
        let side = self.orders[id].side;
        let is_bid = side.is_bid();
        let other = if is_bid { Side::Ask } else { Side::Bid };
        let best = match self.best(other) {
            Some(b) => b,
            None => { return; },
        };
        proof {
            assert(s0.book(other)[0] == best);
            assert(best < s0.orders@.len());
            lemma_not_in_other_side(s0.book(side), s0.orders@, side, best);
            assert(best != id);
        }
        let price = self.orders[id].price;
        let rp = self.orders[best].price;
        let remaining = self.orders[id].size;
        let rs = self.orders[best].size;
        let q = if remaining < rs { remaining } else { rs };
        let bl = if is_bid { price } else { rp };
        let al = if is_bid { rp } else { price };
        proof {
            lemma_reserved_two(s0.orders@, id as int, best as int);
            crate::ledger::lemma_total_balance_nonneg(s0.accounts@);
            lemma_mul_mono(price as int, q as int, remaining as int);
            lemma_mul_mono(rp as int, q as int, rs as int);
            lemma_mul_distrib(q as int, bl as int, rp as int);
            lemma_mul_distrib(q as int, al as int, rp as int);
            lemma_mul_nonneg(rp as int, q as int);
            assert(bl * q + al * q == price * q + rp * q);
        }
        let bid_credit = (bl - rp) * q;
        let ask_credit = al * q + rp * q;

        let mut inc = self.orders[id].duplicate();
        inc.size = remaining - q;
        if inc.size == 0 {
            inc.status = OrderStatus::Filled;
        }
        proof {
            lemma_mul_distrib(price as int, remaining as int, q as int);
            assert(price * 0 == 0) by (nonlinear_arith);
            assert(reservation(inc) == price * remaining - price * q);
            lemma_reserved_update(s0.orders@, id as int, inc);
            lemma_not_in_other_side(s0.book(other), s0.orders@, other, id);
            lemma_book_other_changes(s0.bids@, s0.orders@, Side::Bid, id as int, inc);
            lemma_book_other_changes(s0.asks@, s0.orders@, Side::Ask, id as int, inc);
        }
        let inc_owner = inc.user_name.clone();
        self.orders.set(id, inc);
        let ghost s1 = *self;

        let mut rest = self.orders[best].duplicate();
        rest.size = rs - q;
        let filled = rest.size == 0;
        if filled {
            rest.status = OrderStatus::Filled;
        }
        proof {
            lemma_mul_distrib(rp as int, rs as int, q as int);
            assert(rp * 0 == 0) by (nonlinear_arith);
            assert(reservation(rest) == rp * rs - rp * q);
            lemma_reserved_update(s1.orders@, best as int, rest);
            lemma_book_other_changes(s1.book(side), s1.orders@, side, best as int, rest);
        }
        if filled {
            proof {
                lemma_book_remove(s1.book(other), s1.orders@, other, 0);
                lemma_book_other_changes(s1.book(other).remove(0), s1.orders@, other, best as int, rest);
            }
            self.pop_best(other);
        } else {
            proof {
                lemma_book_resize(s1.book(other), s1.orders@, other, best as int, rest);
            }
        }
        let rest_owner = rest.user_name.clone();
        self.orders.set(best, rest);
        proof {
            assert(total_balance(self.accounts@) + total_reserved(self.orders@) + bid_credit
                + ask_credit == self.total_deposited);
            lemma_reserved_nonneg(self.orders@);
        }

        proof {
            lemma_trade_volume_push(updates@, Update::Trade { price: rp, size: q });
        }
        let ghost u0 = updates@;
        updates.push(Update::Trade { price: rp, size: q });
        if filled {
            let u = Update::Order { user_name: rest_owner.clone(), order_id: best, status: OrderStatus::Filled };
            proof {
                lemma_trade_volume_push(updates@, u);
            }
            updates.push(u);
        }
        proof {
            if filled {
                assert(updates@ =~= u0 + seq![
                    Update::Trade { price: rp, size: q },
                    Update::Order { user_name: rest_owner, order_id: best, status: OrderStatus::Filled },
                ]);
            } else {
                assert(updates@ =~= u0 + seq![Update::Trade { price: rp, size: q }]);
            }
            let ob = s0.book(other);
            assert(ob.remove(0) =~= ob.subrange(1, ob.len() as int));
        }

        let (buyer, seller) = if is_bid { (inc_owner, rest_owner) } else { (rest_owner, inc_owner) };
        let ghost a0 = self.accounts@;
        let (kb, _) = ensure_account(&mut self.accounts, &buyer);
        add_to(&mut self.accounts, kb, bid_credit);
        let (ks, _) = ensure_account(&mut self.accounts, &seller);
        add_to(&mut self.accounts, ks, ask_credit);
        proof {
            assert forall|n: Seq<char>| #[trigger] balance_of(self.accounts@, n) == balance_of(a0, n)
                + payout(n, side, price, s0.orders@[id as int].user_name@, rp, s0.orders@[best as int].user_name@, q) by {
                assert(bid_credit == (bl - rp) * q);
                assert(ask_credit == (al + rp) * q);
            }
            let ob = s0.book(other);
            assert(ob[0] == best);
            assert forall|i: int|
                0 <= i < self.orders@.len() && i != id && (#[trigger] self.orders@[i]).status
                    == OrderStatus::Pending implies book_holds(self.book(self.orders@[i].side), i as usize) by {
                if i == best {
                    assert(self.book(other) == ob);
                    assert(self.book(other)[0] == best);
                } else {
                    assert(self.orders@[i] == s0.orders@[i]);
                    assert(book_holds(s0.book(s0.orders@[i].side), i as usize));
                    if s0.orders@[i].side == other && filled {
                        lemma_holds_after_remove(ob, 0, i as usize);
                        assert(ob.remove(0) =~= ob.subrange(1, ob.len() as int));
                    }
                }
            }
        }
    }

    /// Puts the live order `id` into the book of its side, after every order
    /// that comes before it and ahead of every other.
    fn rest_order(&mut self, id: usize)
        requires
            old(self).wf_core(),
            old(self).live_in_book_except(id as int),
            old(self).uncrossed(),
            old(self).book(old(self).orders@[id as int].side.opposite()).len() == 0 || !crosses(
                old(self).orders@[id as int].side,
                old(self).orders@[id as int].price,
                old(self).orders@[old(self).book(old(self).orders@[id as int].side.opposite())[0] as int].price,
            ),
            id < old(self).orders@.len(),
            old(self).orders@[id as int].status == OrderStatus::Pending,
            !book_holds(old(self).book(old(self).orders@[id as int].side), id),
        ensures
            final(self).wf(),
            book_holds(final(self).book(old(self).orders@[id as int].side), id),
            exists|pos: int|
                0 <= pos <= old(self).book(old(self).orders@[id as int].side).len()
                    && final(self).book(old(self).orders@[id as int].side) == #[trigger] old(
                    self,
                ).book(old(self).orders@[id as int].side).insert(pos, id),
            final(self).book(old(self).orders@[id as int].side.opposite()) == old(self).book(
                old(self).orders@[id as int].side.opposite(),
            ),
            final(self).orders == old(self).orders,
            final(self).accounts == old(self).accounts,
            final(self).total_deposited == old(self).total_deposited,
    {
        proof {
            reveal(Exchange::live_in_book_except);
            reveal(Exchange::uncrossed);
        }
        let side = self.orders[id].side;
        let is_bid = side.is_bid();
        let ghost book = self.book(side);
        let ghost s0 = *self;
        let len = if is_bid { self.bids.len() } else { self.asks.len() };
        let mut pos: usize = 0;
        let mut searching = true;
        while searching && pos < len
            invariant
                self.wf_core(),
                len == book.len(),
                book == self.book(side),
                side == self.orders@[id as int].side,
                is_bid == (side == Side::Bid),
                id < self.orders@.len(),
                pos <= len,
                forall|i: int|
                    0 <= i < pos ==> ranks_before(
                        side,
                        self.orders@[#[trigger] book[i] as int].price,
                        book[i],
                        self.orders@[id as int].price,
                        id,
                    ),
                !searching ==> pos < len && !ranks_before(
                    side,
                    self.orders@[book[pos as int] as int].price,
                    book[pos as int],
                    self.orders@[id as int].price,
                    id,
                ),
            decreases len - pos + (if searching { 1int } else { 0int }),
        {
            let e = if is_bid { self.bids[pos] } else { self.asks[pos] };
            proof {
                assert(book[pos as int] == e);
                assert(e < self.orders@.len());
            }
            if self.orders[e].precedes(&self.orders[id]) {
                pos = pos + 1;
            } else {
                searching = false;
            }
        }
        proof {
            lemma_book_insert(book, self.orders@, side, pos as int, id);
        }
        if is_bid {
            self.bids.insert(pos, id);
        } else {
            self.asks.insert(pos, id);
        }
        assert(self.book(side) == book.insert(pos as int, id));
        proof {
            book.insert_ensures(pos as int, id);
            assert forall|i: int|
                0 <= i < self.orders@.len() && i != -1 && (#[trigger] self.orders@[i]).status
                    == OrderStatus::Pending implies book_holds(self.book(self.orders@[i].side), i as usize) by {
                if i == id {
                    assert(self.book(side)[pos as int] == id);
                } else {
                    assert(book_holds(s0.book(s0.orders@[i].side), i as usize));
                    if self.orders@[i].side == side {
                        lemma_holds_after_insert(book, pos as int, id, i as usize);
                    }
                }
            }
            if pos > 0 {
                assert(self.book(side)[0] == book[0]);
            }
        }
    }

    /// Places a limit order of `user_name` for `size` at `price` on `side`.
    ///
    /// A zero price or size is refused: the order is recorded as `Failed` and
    /// nothing else changes. Otherwise the user's account is opened if needed,
    /// and `price * size` is reserved out of it; where the balance falls short
    /// the order is recorded as `Failed` and no funds move. An admitted order
    /// is `Pending`, then trades against the other book side for as long as it
    /// has size left and the best resting order's price is within its limit
    /// (see `trade_with_best`). It ends `Filled` if nothing is left, or rests
    /// in the book with what is left.
    #[verifier::rlimit(100)]
    #[verifier::spinoff_prover]
    pub fn place_order(&mut self, user_name: String, price: u64, size: u64, side: Side) -> (updates: Vec<Update>)
        requires
            old(self).wf(),
            old(self).orders@.len() < usize::MAX,
        ensures
            placed(*old(self), *final(self), user_name, price, size, side, updates@),
    {
        let id = self.orders.len();
        let ghost s0 = *self;
        if price == 0 || size == 0 {
            return self.record_failed(user_name, price, size, side);
        }
        let (k, _) = ensure_account(&mut self.accounts, &user_name);
        proof {
            crate::ledger::lemma_balance_of_account(self.accounts@, k as int);
            lemma_wf_accounts_only(s0, *self);
        }
        let cost = match price.checked_mul(size) {
            Some(c) => c,
            None => {
                return self.record_failed(user_name, price, size, side);
            },
        };
        if self.accounts[k].balance < cost {
            return self.record_failed(user_name, price, size, side);
        }
        take_from(&mut self.accounts, k, cost);
        let admitted = Order {
            order_id: id,
            user_name: user_name.clone(),
            price,
            size,
            side,
            status: OrderStatus::Pending,
        };
        proof {
            lemma_reserved_push(self.orders@, admitted);
            assert(self.orders@.push(admitted).len() == id + 1);
            lemma_book_push(self.bids@, self.orders@, Side::Bid, admitted);
            lemma_book_push(self.asks@, self.orders@, Side::Ask, admitted);
        }
        self.orders.push(admitted);
        let mut updates = vec![Update::Order { user_name: user_name.clone(), order_id: id, status: OrderStatus::Pending }];
        proof {
            lemma_trade_volume_push(Seq::empty(), updates@[0]);
            assert(updates@ =~= Seq::<Update>::empty().push(updates@[0]));
        }
        let ghost s1 = *self;
        let is_bid = side.is_bid();
        let other = if is_bid { Side::Ask } else { Side::Bid };
        let ghost crossing_at_entry = s1.book(other).len() > 0 && crosses(
            side,
            price,
            s1.orders@[s1.book(other)[0] as int].price,
        );
        proof {
            assert(!book_holds(s1.book(side), id));
            if crossing_at_entry {
                assert(s1.book(other)[0] < s1.orders@.len());
                assert(s1.orders@[s1.book(other)[0] as int].side == other);
            }
        }
        let ghost mut k: int = 0;
        proof {
            lemma_live_after_admit(s0, *self);
            assert(s1.book(other) =~= s1.book(other).subrange(0, s1.book(other).len() as int));
            assert forall|j: int| 0 <= j < s1.book(other).len() implies #[trigger] s1.book(other)[j]
                < s1.orders@.len() && s1.book(other)[j] != id by {
                if other == Side::Bid {
                    assert(s1.bids@[j] < s1.orders@.len());
                } else {
                    assert(s1.asks@[j] < s1.orders@.len());
                }
            }
        }
        let mut go = true;
        while go
            invariant
                self.wf_core(),
                self.live_in_book_except(id as int),
                self.uncrossed(),
                self.orders@.len() == s1.orders@.len(),
                id == s0.orders@.len(),
                id < self.orders@.len(),
                other == side.opposite(),
                is_bid == (side == Side::Bid),
                crossing_at_entry == (s1.book(other).len() > 0 && crosses(
                    side,
                    price,
                    s1.orders@[s1.book(other)[0] as int].price,
                )),
                self.orders@[id as int].order_id == id,
                self.orders@[id as int].user_name == user_name,
                self.orders@[id as int].price == price,
                self.orders@[id as int].side == side,
                self.orders@[id as int].size <= size,
                self.orders@[id as int].status == (if self.orders@[id as int].size == 0 {
                    OrderStatus::Filled
                } else {
                    OrderStatus::Pending
                }),
                self.book(side) == s1.book(side),
                !book_holds(s1.book(side), id),
                self.total_deposited == s1.total_deposited,
                forall|i: int|
                    0 <= i < s1.orders@.len() && i != id && s1.orders@[i].status.is_terminal()
                        ==> #[trigger] self.orders@[i] == s1.orders@[i],
                updates@.len() >= 1,
                trade_volume(updates@) == size - self.orders@[id as int].size,
                forall|j: int| 0 <= j < updates@.len() ==> (#[trigger] updates@[j]).within_limit(side, price),
                updates@[0] == (Update::Order {
                    user_name: user_name,
                    order_id: id,
                    status: OrderStatus::Pending,
                }),
                forall|j: int, i: usize|
                    1 <= j < updates@.len() && (i == id || (i < s1.orders@.len() && s1.orders@[i as int].status.is_terminal()))
                        ==> !#[trigger] updates@[j].concerns(i),
                !go ==> (self.orders@[id as int].status == OrderStatus::Filled || self.book(other).len() == 0
                    || !crosses(side, price, self.orders@[self.book(other)[0] as int].price)),
                s1.orders@[id as int].status == OrderStatus::Pending,
                s1.orders@[id as int].size == size,
                forall|j: int|
                    0 <= j < s1.book(other).len() ==> #[trigger] s1.book(other)[j] < s1.orders@.len()
                        && s1.book(other)[j] != id,
                0 <= k <= s1.book(other).len(),
                self.book(other) == s1.book(other).subrange(k, s1.book(other).len() as int),
                forall|j: int|
                    0 <= j < k ==> self.orders@[#[trigger] s1.book(other)[j] as int].status
                        == OrderStatus::Filled && self.orders@[s1.book(other)[j] as int].size == 0,
                forall|j: int| 1 <= j < updates@.len() ==> (#[trigger] updates@[j]).fill_recorded(self.orders@),
                crossing_at_entry ==> s1.book(other)[0] < s1.orders@.len() && s1.book(other)[0] != id,
                crossing_at_entry && updates@.len() == 1 ==> {
                    &&& go
                    &&& self.accounts@ == s1.accounts@
                    &&& self.orders@ == s1.orders@
                    &&& self.book(other) == s1.book(other)
                },
                crossing_at_entry && updates@.len() > 1 ==> ({
                    let r = s1.orders@[s1.book(other)[0] as int];
                    &&& updates@[1] == Update::Trade {
                        price: r.price,
                        size: if size < r.size { size } else { r.size },
                    }
                    &&& size >= r.size ==> self.orders@[s1.book(other)[0] as int].status
                        == OrderStatus::Filled
                    &&& size <= r.size ==> {
                        &&& self.orders@[id as int].status == OrderStatus::Filled
                        &&& updates@ == seq![
                            Update::Order { user_name: user_name, order_id: id, status: OrderStatus::Pending },
                            Update::Trade { price: r.price, size: size },
                        ] + (if r.size == size {
                            seq![
                                Update::Order {
                                    user_name: r.user_name,
                                    order_id: s1.book(other)[0],
                                    status: OrderStatus::Filled,
                                },
                            ]
                        } else {
                            Seq::empty()
                        })
                        &&& forall|n: Seq<char>|
                            #[trigger] balance_of(self.accounts@, n) == balance_of(s1.accounts@, n)
                                + payout(n, side, price, user_name@, r.price, r.user_name@, size)
                    }
                }),
                !crossing_at_entry ==> {
                    &&& self.orders@ == s1.orders@
                    &&& self.accounts@ == s1.accounts@
                    &&& self.book(other) == s1.book(other)
                    &&& updates@.len() == 1
                },
            decreases self.orders@[id as int].size as int * 2 + (if go { 1int } else { 0int }),
        {
            if !self.orders[id].status.is_pending() {
                go = false;
            } else {
                match self.best(other) {
                    None => {
                        go = false;
                    },
                    Some(b) => {
                        proof {
                            assert(self.book(other)[0] == b);
                            assert(b < self.orders@.len());
                        }
                        let rp = self.orders[b].price;
                        let cross = if is_bid { price >= rp } else { price <= rp };
                        proof {
                            assert(cross == crosses(side, price, rp));
                        }
                        if cross {
                            let ghost s2 = *self;
                            let ghost u2 = updates@;
                            let ghost k0 = k;
                            self.trade_with_best(id, &mut updates);
                            proof {
                                let ob = s2.book(other);
                                let b = ob[0];
                                assert(b == s1.book(other)[k0]);
                                if self.orders@[b as int].status == OrderStatus::Filled {
                                    assert(ob.subrange(1, ob.len() as int) =~= s1.book(other).subrange(
                                        k0 + 1,
                                        s1.book(other).len() as int,
                                    ));
                                    k = k0 + 1;
                                }
                            }
                            proof {
                                assert forall|i: int|
                                    0 <= i < s1.orders@.len() && i != id && s1.orders@[i].status.is_terminal()
                                        implies #[trigger] self.orders@[i] == s1.orders@[i] by {
                                    assert(s2.orders@[i] == s1.orders@[i]);
                                }
                                assert forall|j: int| 0 <= j < updates@.len() implies (#[trigger] updates@[j]).within_limit(side, price) by {
                                    if j < u2.len() {
                                        assert(updates@[j] == u2[j]);
                                    }
                                }
                                assert forall|j: int| 0 <= j < k implies self.orders@[#[trigger] s1.book(other)[j] as int].status
                                    == OrderStatus::Filled && self.orders@[s1.book(other)[j] as int].size == 0 by {
                                    if j < k0 {
                                        assert(s2.orders@[s1.book(other)[j] as int].status.is_terminal());
                                    }
                                }
                                assert forall|j: int| 1 <= j < updates@.len() implies (#[trigger] updates@[j]).fill_recorded(self.orders@) by {
                                    if j < u2.len() {
                                        assert(updates@[j] == u2[j]);
                                        match u2[j] {
                                            Update::Order { order_id, .. } => {
                                                assert(s2.orders@[order_id as int].status.is_terminal());
                                            },
                                            _ => {},
                                        }
                                    }
                                }
                                if u2.len() > 1 {
                                    assert(updates@[1] == u2[1]);
                                    if crossing_at_entry {
                                        let rid = s1.book(other)[0] as int;
                                        if s2.orders@[rid].status == OrderStatus::Filled {
                                            assert(self.orders@[rid] == s2.orders@[rid]);
                                        }
                                    }
                                }
                                assert forall|j: int, i: usize|
                                    1 <= j < updates@.len() && (i == id || (i < s1.orders@.len()
                                        && s1.orders@[i as int].status.is_terminal()))
                                        implies !#[trigger] updates@[j].concerns(i) by {
                                    if j < u2.len() {
                                        assert(updates@[j] == u2[j]);
                                    } else if i != id {
                                        assert(s2.orders@[i as int] == s1.orders@[i as int]);
                                    }
                                }
                            }
                        } else {
                            go = false;
                        }
                    },
                }
            }
        }
        let last = if self.orders[id].status.is_pending() {
            self.rest_order(id);
            Update::Order { user_name, order_id: id, status: OrderStatus::Pending }
        } else {
            Update::Order { user_name, order_id: id, status: OrderStatus::Filled }
        };
        proof {
            lemma_trade_volume_push(updates@, last);
        }
        let ghost ul = updates@;
        updates.push(last);
        proof {
            if self.orders@[id as int].status != OrderStatus::Pending {
                lemma_live_when_done(*self, id as int);
            }
            assert(s1.book(other) == s0.book(other));
            assert(s1.book(side) == s0.book(side));
            assert forall|j: int| 1 <= j < updates@.len() - 1 implies !(#[trigger] updates@[j]).concerns(id)
                && updates@[j].fill_recorded(self.orders@) by {
                assert(updates@[j] == ul[j]);
            }
            assert(updates@ == ul.push(last));
            assert(self.book(other) == s0.book(other).subrange(k, s0.book(other).len() as int));
            assert(forall|j: int| 0 <= j < k ==> self.orders@[#[trigger] s0.book(other)[j] as int].status
                == OrderStatus::Filled && self.orders@[s0.book(other)[j] as int].size == 0);
        }
        updates
    }

    /// Records a refused order as `Failed`, touching nothing else.
    fn record_failed(&mut self, user_name: String, price: u64, size: u64, side: Side) -> (updates: Vec<Update>)
        requires
            old(self).wf(),
            old(self).orders@.len() < usize::MAX,
        ensures
            final(self).wf(),
            final(self).orders@ == old(self).orders@.push(
                Order {
                    order_id: old(self).orders@.len() as usize,
                    user_name: user_name,
                    price: price,
                    size: size,
                    side: side,
                    status: OrderStatus::Failed,
                },
            ),
            final(self).bids == old(self).bids,
            final(self).asks == old(self).asks,
            final(self).accounts == old(self).accounts,
            final(self).total_deposited == old(self).total_deposited,
            updates@ == seq![
                Update::Order {
                    user_name: user_name,
                    order_id: old(self).orders@.len() as usize,
                    status: OrderStatus::Failed,
                },
            ],
    {
        proof {
            reveal(Exchange::live_in_book_except);
            reveal(Exchange::uncrossed);
        }
        let id = self.orders.len();
        let failed = Order {
            order_id: id,
            user_name: user_name.clone(),
            price,
            size,
            side,
            status: OrderStatus::Failed,
        };
        proof {
            lemma_reserved_push(self.orders@, failed);
            lemma_book_push(self.bids@, self.orders@, Side::Bid, failed);
            lemma_book_push(self.asks@, self.orders@, Side::Ask, failed);
        }
        self.orders.push(failed);
        vec![Update::Order { user_name, order_id: id, status: OrderStatus::Failed }]
    }

    /// Carries out one request and returns what changed, in order. This is
    /// one turn of the engine: requests are handled one at a time.
    pub fn handle(&mut self, request: Request) -> (updates: Vec<Update>)
        requires
            old(self).wf(),
            old(self).orders@.len() < usize::MAX,
        ensures
            match request {
                Request::PlaceOrder { user_name, price, size, side } => placed(
                    *old(self),
                    *final(self),
                    user_name,
                    price,
                    size,
                    side,
                    updates@,
                ),
                Request::CancelOrder { order_id } => cancelled(*old(self), *final(self), order_id, updates@),
                Request::Deposit { user, amount } => deposited(*old(self), *final(self), user, amount, updates@),
                Request::CreateUser { name } => user_created(*old(self), *final(self), name, updates@),
            },
            final(self).wf(),
            final(self).orders@.len() == old(self).orders@.len() + (match request {
                Request::PlaceOrder { .. } => 1int,
                _ => 0int,
            }),
            final(self).total_deposited == old(self).total_deposited + (match request {
                Request::Deposit { amount, .. } => if amount >= 0 && old(self).total_deposited
                    + amount <= u64::MAX {
                    amount as int
                } else {
                    0int
                },
                _ => 0int,
            }),
            forall|i: int|
                0 <= i < old(self).orders@.len() && old(self).orders@[i].status.is_terminal()
                    ==> #[trigger] final(self).orders@[i] == old(self).orders@[i],
            forall|j: int, i: usize|
                0 <= j < updates@.len() && i < old(self).orders@.len() && old(
                    self,
                ).orders@[i as int].status.is_terminal() ==> !#[trigger] updates@[j].concerns(i),
    {
        match request {
            Request::PlaceOrder { user_name, price, size, side } => self.place_order(
                user_name,
                price,
                size,
                side,
            ),
            Request::CancelOrder { order_id } => self.cancel_order(order_id),
            Request::Deposit { user, amount } => self.deposit(user, amount),
            Request::CreateUser { name } => self.create_user(name),
        }
    }
}

/// Funds are neither made nor lost: in every state the engine reaches, the
/// free balances and the reservations of live orders add up to everything
/// deposited.
pub proof fn lemma_funds_conserved(ex: Exchange)
    requires
        ex.wf(),
    ensures
        total_balance(ex.accounts@) + total_reserved(ex.orders@) == ex.total_deposited,
{
}

/// A filled order has no size left.
pub proof fn lemma_filled_is_empty(ex: Exchange, id: int)
    requires
        ex.wf(),
        0 <= id < ex.orders@.len(),
        ex.orders@[id].status == OrderStatus::Filled,
    ensures
        ex.orders@[id].size == 0,
{
}

/// Each side of the book lists its orders by price, better first, and orders
/// at one price by arrival.
pub proof fn lemma_book_priority(ex: Exchange, side: Side, i: int, j: int)
    requires
        ex.wf(),
        0 <= i < j < ex.book(side).len(),
    ensures
        ({
            let a = ex.orders@[ex.book(side)[i] as int];
            let b = ex.orders@[ex.book(side)[j] as int];
            &&& side == Side::Bid ==> a.price > b.price || (a.price == b.price && a.order_id
                < b.order_id)
            &&& side == Side::Ask ==> a.price < b.price || (a.price == b.price && a.order_id
                < b.order_id)
        }),
{
    let book = ex.book(side);
    assert(book[i] < ex.orders@.len());
    assert(book[j] < ex.orders@.len());
    assert(ranks_before(side, ex.orders@[book[i] as int].price, book[i], ex.orders@[book[j] as int].price, book[j]));
}

/// Every live order rests in the book of its own side.
pub proof fn lemma_live_orders_rest(ex: Exchange, i: int)
    requires
        ex.wf(),
        0 <= i < ex.orders@.len(),
        ex.orders@[i].status == OrderStatus::Pending,
    ensures
        book_holds(ex.book(ex.orders@[i].side), i as usize),
{
    reveal(Exchange::live_in_book_except);
}

/// The book is never crossed: the best bid is below the best ask.
pub proof fn lemma_book_uncrossed(ex: Exchange)
    requires
        ex.wf(),
        ex.bids@.len() > 0,
        ex.asks@.len() > 0,
    ensures
        ex.orders@[ex.bids@[0] as int].price < ex.orders@[ex.asks@[0] as int].price,
{
    reveal(Exchange::uncrossed);
}

} // verus!
