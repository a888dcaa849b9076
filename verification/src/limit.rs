//! What a rate limit means: which requests it lets through, by the times at which they come.
//!
//! A limit is a bucket. It is full at first, with `burst` tokens in it. A request takes a token,
//! or is refused where there is no whole one. Tokens run back in evenly, one in `period_secs`, and
//! never more than the bucket holds. Tokens are measured by the nanoseconds that they take to run
//! back in, and times are in nanoseconds.
//!
//! The bucket itself is kept by the limiter in front of the endpoints; this is what it is asked to
//! do by the numbers in a `RateLimit`.

use crate::routes::{allowance, restore_limit, route_table, Endpoint, RateLimit, RouteView};
use vstd::prelude::*;

verus! {

/// The HTTP status of the limiter's answer to a request that it does not let through.
pub const TOO_MANY_REQUESTS: u16 = 429;

/// A second, in nanoseconds.
pub open spec fn second() -> int {
    1_000_000_000
}

impl RateLimit {
    /// What one token is worth.
    pub open spec fn token(self) -> int {
        self.period_secs * second()
    }

    /// What a full bucket is worth.
    pub open spec fn capacity(self) -> int {
        self.burst * self.token()
    }

    /// What is in the bucket when the last of these requests comes.
    pub open spec fn level(self, arrivals: Seq<int>) -> int
        decreases arrivals.len(),
    {
        if arrivals.len() <= 1 {
            self.capacity()
        } else {
            let before = arrivals.drop_last();
            let level = self.left(self.level(before)) + (arrivals.last() - before.last());
            if level <= self.capacity() {
                level
            } else {
                self.capacity()
            }
        }
    }

    /// What a request leaves in a bucket of that level.
    pub open spec fn left(self, level: int) -> int {
        if level >= self.token() {
            level - self.token()
        } else {
            level
        }
    }

    /// Whether the last of these requests is let through.
    pub open spec fn admits(self, arrivals: Seq<int>) -> bool {
        self.level(arrivals) >= self.token()
    }

    /// How many of these requests come between `from` and `to`, both included, and are let
    /// through.
    pub open spec fn admitted(self, arrivals: Seq<int>, from: int, to: int) -> nat
        decreases arrivals.len(),
    {
        if arrivals.len() == 0 {
            0
        } else {
            self.admitted(arrivals.drop_last(), from, to) + if from <= arrivals.last() <= to
                && self.admits(arrivals) {
                1nat
            } else {
                0
            }
        }
    }

    /// Whether there is something to limit.
    pub open spec fn sound(self) -> bool {
        self.period_secs > 0 && self.burst > 0
    }
}

/// Whether these times are in order.
pub open spec fn ascending(arrivals: Seq<int>) -> bool {
    forall|i: int, j: int|
        0 <= i <= j < arrivals.len() ==> #[trigger] arrivals[i] <= #[trigger] arrivals[j]
}

proof fn lemma_level(limit: RateLimit, arrivals: Seq<int>)
    requires
        limit.sound(),
        ascending(arrivals),
    ensures
        limit.token() > 0,
        limit.capacity() >= limit.token(),
        0 <= limit.left(limit.level(arrivals)) <= limit.level(arrivals) <= limit.capacity(),
    decreases arrivals.len(),
{
    let (token, burst) = (limit.token(), limit.burst as int);
    assert(burst * token >= token) by (nonlinear_arith)
        requires
            burst >= 1,
            token > 0,
    ;
    if arrivals.len() > 1 {
        let before = arrivals.drop_last();
        lemma_ascending_before(arrivals);
        lemma_level(limit, before);
        assert(before.last() == arrivals[arrivals.len() - 2]);
    }
}

proof fn lemma_ascending_before(arrivals: Seq<int>)
    requires
        ascending(arrivals),
        arrivals.len() > 0,
    ensures
        ascending(arrivals.drop_last()),
{
    let before = arrivals.drop_last();
    assert forall|i: int, j: int| 0 <= i <= j < before.len() implies #[trigger] before[i]
        <= #[trigger] before[j] by {
        assert(before[i] == arrivals[i] && before[j] == arrivals[j]);
    }
}

/// Requests before a window are not counted in it.
proof fn lemma_none_admitted(limit: RateLimit, arrivals: Seq<int>, from: int, to: int)
    requires
        ascending(arrivals),
        arrivals.len() > 0 ==> arrivals.last() < from,
    ensures
        limit.admitted(arrivals, from, to) == 0,
    decreases arrivals.len(),
{
    if arrivals.len() > 0 {
        let before = arrivals.drop_last();
        lemma_ascending_before(arrivals);
        if before.len() > 0 {
            assert(before.last() == arrivals[arrivals.len() - 2]);
            assert(arrivals.last() == arrivals[arrivals.len() - 1]);
        }
        lemma_none_admitted(limit, before, from, to);
    }
}

/// What was let through in a window was paid for by a full bucket and what ran in since.
proof fn lemma_admitted_is_paid_for(limit: RateLimit, arrivals: Seq<int>, from: int, to: int)
    requires
        limit.sound(),
        ascending(arrivals),
        from <= to,
    ensures
        limit.admitted(arrivals, from, to) * limit.token() <= limit.capacity() + (to - from),
        arrivals.len() > 0 && from <= arrivals.last() <= to ==> limit.admitted(arrivals, from, to)
            * limit.token() + limit.left(limit.level(arrivals)) <= limit.capacity() + (
        arrivals.last() - from),
    decreases arrivals.len(),
{
    lemma_level(limit, arrivals);
    assert(0 * limit.token() == 0);
    if arrivals.len() > 0 {
        let before = arrivals.drop_last();
        let (token, count) = (limit.token(), limit.admitted(before, from, to) as int);
        lemma_ascending_before(arrivals);
        lemma_admitted_is_paid_for(limit, before, from, to);
        assert((count + 1) * token == count * token + token) by (nonlinear_arith);
        if before.len() > 0 {
            assert(before.last() == arrivals[arrivals.len() - 2]);
            assert(arrivals.last() == arrivals[arrivals.len() - 1]);
        }
        if before.len() == 0 || before.last() < from {
            lemma_none_admitted(limit, before, from, to);
        }
    }
}

/// In any window of `secs` seconds at most `burst` requests are let through, and one more for each
/// `period_secs` in it.
pub proof fn law_limit_holds_in_any_window(
    limit: RateLimit,
    arrivals: Seq<int>,
    from: int,
    secs: nat,
)
    requires
        limit.sound(),
        ascending(arrivals),
    ensures
        limit.admitted(arrivals, from, from + secs * second()) <= limit.burst + secs as int
            / limit.period_secs as int,
{
    let count = limit.admitted(arrivals, from, from + secs * second()) as int;
    let (period, burst) = (limit.period_secs as int, limit.burst as int);
    let more = count - burst;
    lemma_admitted_is_paid_for(limit, arrivals, from, from + secs * second());
    assert(more * period <= secs) by (nonlinear_arith)
        requires
            count * (period * 1_000_000_000) <= burst * (period * 1_000_000_000) + secs
                * 1_000_000_000,
            more == count - burst,
    ;
    assert(more <= secs as int / period) by (nonlinear_arith)
        requires
            more * period <= secs,
            period > 0,
    ;
}

/// Of requests that come to a full bucket all at once, exactly the first `burst` are let through.
pub proof fn law_burst_at_once(limit: RateLimit, arrivals: Seq<int>)
    requires
        limit.sound(),
        arrivals.len() > 0,
        forall|i: int, j: int|
            0 <= i < arrivals.len() && 0 <= j < arrivals.len() ==> #[trigger] arrivals[i]
                == #[trigger] arrivals[j],
    ensures
        limit.admits(arrivals) <==> arrivals.len() <= limit.burst,
        limit.level(arrivals) == if arrivals.len() <= limit.burst {
            limit.capacity() - (arrivals.len() - 1) * limit.token()
        } else {
            0
        },
    decreases arrivals.len(),
{
    let n = arrivals.len() as int;
    let (token, burst) = (limit.token(), limit.burst as int);
    lemma_level(limit, arrivals);
    assert((n - 2) * token + token == (n - 1) * token) by (nonlinear_arith);
    assert(n == 1 ==> (n - 1) * token == 0) by (nonlinear_arith);
    if n <= burst {
        assert(burst * token - (n - 1) * token >= token) by (nonlinear_arith)
            requires
                n <= burst,
                token > 0,
        ;
    }
    if n > 1 {
        let before = arrivals.drop_last();
        assert forall|i: int, j: int|
            0 <= i < before.len() && 0 <= j < before.len() implies #[trigger] before[i]
            == #[trigger] before[j] by {
            assert(before[i] == arrivals[i] && before[j] == arrivals[j]);
        }
        law_burst_at_once(limit, before);
        assert(before.last() == arrivals[n - 2]);
        assert(arrivals.last() == arrivals[n - 1]);
        assert(n - 1 == burst ==> burst * token - (n - 2) * token == token) by (nonlinear_arith);
    }
}

/// A request that comes `period_secs` or more after the one before it is let through, and one that
/// comes after `burst` times as long finds the bucket full.
pub proof fn law_tokens_come_back(limit: RateLimit, arrivals: Seq<int>)
    requires
        limit.sound(),
        ascending(arrivals),
        arrivals.len() > 1,
    ensures
        ({
            let wait = arrivals.last() - arrivals[arrivals.len() - 2];
            &&& wait >= limit.token() ==> limit.admits(arrivals)
            &&& wait >= limit.capacity() ==> limit.level(arrivals) == limit.capacity()
        }),
{
    let before = arrivals.drop_last();
    lemma_ascending_before(arrivals);
    lemma_level(limit, before);
    assert(before.last() == arrivals[arrivals.len() - 2]);
}

/// A request as the limiter sees it: when it comes, for which route, and from which address.
pub struct Arrival<Ip> {
    pub at: int,
    pub route: RouteView,
    pub peer: Ip,
}

impl<Ip> Arrival<Ip> {
    /// What the request counts against.
    pub open spec fn counts_against(self) -> Option<(Endpoint, Ip)> {
        allowance(self.route, self.peer)
    }
}

/// Those of the requests that count against one allowance.
pub open spec fn sharing<Ip>(history: Seq<Arrival<Ip>>, shared: Option<(Endpoint, Ip)>) -> Seq<
    Arrival<Ip>,
>
    decreases history.len(),
{
    if history.len() == 0 {
        Seq::empty()
    } else if history.last().counts_against() == shared {
        sharing(history.drop_last(), shared).push(history.last())
    } else {
        sharing(history.drop_last(), shared)
    }
}

/// When these requests come.
pub open spec fn times<Ip>(history: Seq<Arrival<Ip>>) -> Seq<int> {
    history.map_values(|arrival: Arrival<Ip>| arrival.at)
}

/// What becomes of a request at the limiter.
pub enum Passage {
    /// It goes to the handler of this endpoint.
    Handled(Endpoint),
    /// It is answered with this status, and no handler sees it.
    Refused(u16),
}

/// What becomes of the last of the requests `history`: where its route has a limit, the requests
/// that count against the same allowance decide.
pub open spec fn passage<Ip>(history: Seq<Arrival<Ip>>) -> Passage
    recommends
        history.len() > 0,
{
    let request = history.last();
    match request.route.limit {
        None => Passage::Handled(request.route.endpoint),
        Some(limit) => if limit.admits(times(sharing(history, request.counts_against()))) {
            Passage::Handled(request.route.endpoint)
        } else {
            Passage::Refused(TOO_MANY_REQUESTS)
        },
    }
}

/// Whether these requests come in order, to the routes there are.
pub open spec fn well_formed<Ip>(history: Seq<Arrival<Ip>>) -> bool {
    &&& ascending(times(history))
    &&& forall|i: int| 0 <= i < history.len() ==> route_table().contains((#[trigger] history[i]).route)
}

/// How many restores from the address `peer` come between `from` and `to`, both included, and
/// reach their handler.
pub open spec fn restores_handled<Ip>(
    history: Seq<Arrival<Ip>>,
    peer: Ip,
    from: int,
    to: int,
) -> nat
    decreases history.len(),
{
    if history.len() == 0 {
        0
    } else {
        let request = history.last();
        restores_handled(history.drop_last(), peer, from, to) + if request.peer == peer && from
            <= request.at <= to && passage(history) == Passage::Handled(
            Endpoint::RestoreDatabase,
        ) {
            1nat
        } else {
            0
        }
    }
}

proof fn lemma_routes(route: RouteView)
    requires
        route_table().contains(route),
    ensures
        route.endpoint == Endpoint::RestoreDatabase <==> route.limit is Some,
        route.limit is Some ==> route.limit == Some(restore_limit()),
{
    let i = choose|i: int| 0 <= i < route_table().len() && route_table()[i] == route;
    assert(0 <= i < 5);
}

proof fn lemma_well_formed_before<Ip>(history: Seq<Arrival<Ip>>)
    requires
        well_formed(history),
        history.len() > 0,
    ensures
        well_formed(history.drop_last()),
{
    let before = history.drop_last();
    assert(times(before) == times(history).drop_last());
    lemma_ascending_before(times(history));
    assert forall|i: int| 0 <= i < before.len() implies route_table().contains(
        (#[trigger] before[i]).route,
    ) by {
        assert(before[i] == history[i]);
    }
}

/// The requests that share an allowance are in order, too.
proof fn lemma_sharing_ascends<Ip>(history: Seq<Arrival<Ip>>, shared: Option<(Endpoint, Ip)>)
    requires
        ascending(times(history)),
    ensures
        ascending(times(sharing(history, shared))),
        sharing(history, shared).len() > 0 ==> history.len() > 0 && times(
            sharing(history, shared),
        ).last() <= times(history).last(),
    decreases history.len(),
{
    if history.len() > 0 {
        let before = history.drop_last();
        let (all, some) = (times(history), times(sharing(history, shared)));
        let earlier = times(sharing(before, shared));
        assert(times(before) == all.drop_last());
        lemma_ascending_before(all);
        lemma_sharing_ascends(before, shared);
        if before.len() > 0 {
            assert(times(before).last() == all[all.len() - 2]);
            assert(all[all.len() - 1] == all.last());
        }
        if history.last().counts_against() == shared {
            assert(some == earlier.push(all.last()));
            assert forall|i: int, j: int| 0 <= i <= j < some.len() implies #[trigger] some[i]
                <= #[trigger] some[j] by {
                if i < earlier.len() {
                    assert(earlier[i] <= earlier[earlier.len() - 1]);
                }
            }
        } else {
            assert(some == earlier);
        }
    }
}

/// The restores from an address that reach their handler are those that the bucket of that
/// address lets through.
proof fn lemma_restores_are_admitted<Ip>(
    history: Seq<Arrival<Ip>>,
    peer: Ip,
    from: int,
    to: int,
)
    requires
        well_formed(history),
    ensures
        restores_handled(history, peer, from, to) == restore_limit().admitted(
            times(sharing(history, Some((Endpoint::RestoreDatabase, peer)))),
            from,
            to,
        ),
    decreases history.len(),
{
    let shared = Some((Endpoint::RestoreDatabase, peer));
    if history.len() > 0 {
        let before = history.drop_last();
        let request = history.last();
        lemma_well_formed_before(history);
        lemma_restores_are_admitted(before, peer, from, to);
        assert(history[history.len() - 1] == request);
        lemma_routes(request.route);
        if request.counts_against() == shared {
            let some = times(sharing(history, shared));
            assert(some.drop_last() == times(sharing(before, shared)));
            assert(some.last() == request.at);
        }
    } else {
        assert(times(sharing(history, shared)) == Seq::<int>::empty());
    }
}

/// Restores are limited to three a minute from one address: of those that it sends, at whatever
/// times, at most three reach their handler in any window, and one more for every twenty seconds
/// in it. What else is sent, and by whom, makes no difference.
pub proof fn law_restores_in_any_window<Ip>(
    history: Seq<Arrival<Ip>>,
    peer: Ip,
    from: int,
    secs: nat,
)
    requires
        well_formed(history),
    ensures
        restores_handled(history, peer, from, from + secs * second()) <= 3 + secs as int / 20,
{
    let shared = Some((Endpoint::RestoreDatabase, peer));
    lemma_restores_are_admitted(history, peer, from, from + secs * second());
    lemma_sharing_ascends(history, shared);
    law_limit_holds_in_any_window(restore_limit(), times(sharing(history, shared)), from, secs);
}

/// Of restores that one address sends at one instant, as its first, exactly three reach their
/// handler; the others are answered with 429.
pub proof fn law_three_restores_at_once<Ip>(history: Seq<Arrival<Ip>>)
    requires
        history.len() > 0,
        forall|i: int|
            #![trigger history[i]]
            0 <= i < history.len() ==> {
                &&& history[i] == history[0]
                &&& route_table().contains(history[i].route)
                &&& history[i].route.endpoint == Endpoint::RestoreDatabase
            },
    ensures
        passage(history) == if history.len() <= 3 {
            Passage::Handled(Endpoint::RestoreDatabase)
        } else {
            Passage::Refused(429)
        },
{
    let request = history.last();
    assert(history[history.len() - 1] == request);
    lemma_routes(request.route);
    lemma_all_share(history, request.counts_against());
    let arrivals = times(history);
    assert forall|i: int, j: int|
        0 <= i < arrivals.len() && 0 <= j < arrivals.len() implies #[trigger] arrivals[i]
        == #[trigger] arrivals[j] by {
        assert(history[i] == history[0] && history[j] == history[0]);
    }
    law_burst_at_once(restore_limit(), arrivals);
}

proof fn lemma_all_share<Ip>(history: Seq<Arrival<Ip>>, shared: Option<(Endpoint, Ip)>)
    requires
        forall|i: int| 0 <= i < history.len() ==> (#[trigger] history[i]).counts_against() == shared,
    ensures
        sharing(history, shared) == history,
    decreases history.len(),
{
    if history.len() > 0 {
        let before = history.drop_last();
        assert forall|i: int| 0 <= i < before.len() implies (#[trigger] before[i]).counts_against()
            == shared by {
            assert(before[i] == history[i]);
        }
        assert(history[history.len() - 1] == history.last());
        lemma_all_share(before, shared);
        assert(before.push(history.last()) == history);
    }
}

/// A spent limit stops nobody else. Whatever came before, a request that is no restore reaches its
/// handler; a restore fares as if only the restores from its own address had come before; and the
/// first restore from an address reaches its handler.
pub proof fn law_spent_limit_stops_nobody_else<Ip>(history: Seq<Arrival<Ip>>, request: Arrival<Ip>)
    requires
        well_formed(history.push(request)),
    ensures
        request.route.endpoint != Endpoint::RestoreDatabase ==> passage(history.push(request))
            == Passage::Handled(request.route.endpoint),
        request.route.endpoint == Endpoint::RestoreDatabase ==> {
            let own = sharing(history, Some((Endpoint::RestoreDatabase, request.peer)));
            &&& passage(history.push(request)) == passage(own.push(request))
            &&& own.len() == 0 ==> passage(history.push(request)) == Passage::Handled(
                Endpoint::RestoreDatabase,
            )
            &&& forall|i: int|
                0 <= i < own.len() ==> (#[trigger] own[i]).peer == request.peer
                    && own[i].route.endpoint == Endpoint::RestoreDatabase
        },
{
    let all = history.push(request);
    assert(all[all.len() - 1] == request);
    lemma_routes(request.route);
    assert(all.drop_last() == history);
    if request.route.endpoint == Endpoint::RestoreDatabase {
        let shared = Some((Endpoint::RestoreDatabase, request.peer));
        let own = sharing(history, shared);
        assert(own.push(request).drop_last() == own);
        lemma_sharing_shares(history, shared);
        lemma_all_share(own, shared);
        lemma_level(restore_limit(), Seq::empty());
        if own.len() == 0 {
            assert(times(sharing(all, shared)).len() == 1);
        }
    }
}

proof fn lemma_sharing_shares<Ip>(history: Seq<Arrival<Ip>>, shared: Option<(Endpoint, Ip)>)
    ensures
        forall|i: int|
            0 <= i < sharing(history, shared).len() ==> (#[trigger] sharing(
                history,
                shared,
            )[i]).counts_against() == shared,
    decreases history.len(),
{
    if history.len() > 0 {
        let before = sharing(history.drop_last(), shared);
        let all = sharing(history, shared);
        lemma_sharing_shares(history.drop_last(), shared);
        assert forall|i: int| 0 <= i < all.len() implies (#[trigger] all[i]).counts_against()
            == shared by {
            if i < before.len() {
                assert(all[i] == before[i]);
            }
        }
    }
}

} // verus!
