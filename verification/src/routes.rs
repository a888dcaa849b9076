//! The endpoints, and where they are mounted.

use vstd::prelude::*;

verus! {

/// An HTTP method.
#[derive(Debug, Clone, Copy, PartialEq, Eq, Structural)]
pub enum Method {
    Get,
    Post,
    Delete,
}

/// What a request is for.
#[derive(Debug, Clone, Copy, PartialEq, Eq, Structural)]
pub enum Endpoint {
    BackupDatabase,
    ListBackupFiles,
    DownloadBackupFile,
    DeleteBackupFile,
    RestoreDatabase,
}

/// Which requests count against the same limit.
#[derive(Debug, Clone, Copy, PartialEq, Eq, Structural)]
pub enum LimitKey {
    /// Those that come from one IP address.
    PeerIp,
}

/// How often a request may be made. The module `limit` says which requests it lets through.
#[derive(Debug, Clone, Copy, PartialEq, Eq, Structural)]
pub struct RateLimit {
    pub key: LimitKey,
    /// The seconds after which one more request is allowed.
    pub period_secs: u64,
    /// The most requests that are allowed at once.
    pub burst: u32,
}

/// Where an endpoint is mounted.
#[derive(Debug, PartialEq, Eq)]
pub struct Route {
    pub method: Method,
    /// The path, with `{filename}` for a part that the request fills in.
    pub path: String,
    pub endpoint: Endpoint,
    pub limit: Option<RateLimit>,
}

/// The contents of a `Route`.
pub struct RouteView {
    pub method: Method,
    pub path: Seq<char>,
    pub endpoint: Endpoint,
    pub limit: Option<RateLimit>,
}

impl View for Route {
    type V = RouteView;

    open spec fn view(&self) -> RouteView {
        RouteView {
            method: self.method,
            path: self.path@,
            endpoint: self.endpoint,
            limit: self.limit,
        }
    }
}

/// The limit on restores, which replace the database and restart the server: from one IP address
/// three at once, and one more every twenty seconds.
pub open spec fn restore_limit() -> RateLimit {
    RateLimit { key: LimitKey::PeerIp, period_secs: 20, burst: 3 }
}

/// All routes.
pub open spec fn route_table() -> Seq<RouteView> {
    seq![
        RouteView {
            method: Method::Post,
            path: "/utilities/database/backup"@,
            endpoint: Endpoint::BackupDatabase,
            limit: None,
        },
        RouteView {
            method: Method::Get,
            path: "/utilities/database/backups"@,
            endpoint: Endpoint::ListBackupFiles,
            limit: None,
        },
        RouteView {
            method: Method::Get,
            path: "/utilities/database/backups/{filename}/download"@,
            endpoint: Endpoint::DownloadBackupFile,
            limit: None,
        },
        RouteView {
            method: Method::Delete,
            path: "/utilities/database/backups/{filename}"@,
            endpoint: Endpoint::DeleteBackupFile,
            limit: None,
        },
        RouteView {
            method: Method::Post,
            path: "/utilities/database/restore"@,
            endpoint: Endpoint::RestoreDatabase,
            limit: Some(restore_limit()),
        },
    ]
}

/// All routes.
pub fn router() -> (routes: Vec<Route>)
    ensures
        routes@.map_values(|route: Route| route@) == route_table(),
        forall|i: int|
            0 <= i < routes@.len() ==> {
                let route = #[trigger] routes@[i];
                let row = route_table()[i];
                route.method == row.method && route.path@ == row.path && route.endpoint
                    == row.endpoint && route.limit == row.limit
            },
{
    let mut routes: Vec<Route> = Vec::new();
    routes.push(
        Route {
            method: Method::Post,
            path: "/utilities/database/backup".to_owned(),
            endpoint: Endpoint::BackupDatabase,
            limit: None,
        },
    );
    routes.push(
        Route {
            method: Method::Get,
            path: "/utilities/database/backups".to_owned(),
            endpoint: Endpoint::ListBackupFiles,
            limit: None,
        },
    );
    routes.push(
        Route {
            method: Method::Get,
            path: "/utilities/database/backups/{filename}/download".to_owned(),
            endpoint: Endpoint::DownloadBackupFile,
            limit: None,
        },
    );
    routes.push(
        Route {
            method: Method::Delete,
            path: "/utilities/database/backups/{filename}".to_owned(),
            endpoint: Endpoint::DeleteBackupFile,
            limit: None,
        },
    );
    routes.push(
        Route {
            method: Method::Post,
            path: "/utilities/database/restore".to_owned(),
            endpoint: Endpoint::RestoreDatabase,
            limit: Some(RateLimit { key: LimitKey::PeerIp, period_secs: 20, burst: 3 }),
        },
    );
    assert(routes@.map_values(|route: Route| route@) == route_table());
    routes
}

/// What a request on `route` from the address `peer` counts against: nothing where the route has
/// no limit, else the allowance of that route for those who share it.
pub open spec fn allowance<Ip>(route: RouteView, peer: Ip) -> Option<(Endpoint, Ip)> {
    match route.limit {
        None => None,
        Some(limit) => match limit.key {
            LimitKey::PeerIp => Some((route.endpoint, peer)),
        },
    }
}

/// Each endpoint is mounted once, and no two routes share a path.
pub proof fn law_routes_are_distinct(i: int, j: int)
    requires
        0 <= i < j < route_table().len(),
    ensures
        route_table()[i].endpoint != route_table()[j].endpoint,
        route_table()[i].path != route_table()[j].path,
{
    reveal_strlit("/utilities/database/backup");
    reveal_strlit("/utilities/database/backups");
    reveal_strlit("/utilities/database/backups/{filename}/download");
    reveal_strlit("/utilities/database/backups/{filename}");
    reveal_strlit("/utilities/database/restore");
    assert("/utilities/database/backups"@[20] != "/utilities/database/restore"@[20]);
    let (a, b) = (route_table()[i].path, route_table()[j].path);
    assert(a.len() != b.len() || a[20] != b[20]);
}

/// Restores are limited and nothing else is; the limit is one that a limiter can hold to, and a
/// peer that has used it up has all of it back after a minute.
pub proof fn law_only_restores_are_limited(i: int)
    requires
        0 <= i < route_table().len(),
    ensures
        route_table()[i].limit is Some <==> route_table()[i].endpoint == Endpoint::RestoreDatabase,
        route_table()[i].limit matches Some(limit) ==> {
            &&& limit.period_secs > 0
            &&& limit.burst > 0
            &&& limit.period_secs * limit.burst == 60
        },
{
}

/// The limit is one per IP address, and on restores alone: two requests count against the same
/// allowance if and only if both are restores and come from one address, and a request that is no
/// restore counts against none.
pub proof fn law_limit_is_per_peer<Ip>(i: int, j: int, a: Ip, b: Ip)
    requires
        0 <= i < route_table().len(),
        0 <= j < route_table().len(),
    ensures
        allowance(route_table()[i], a) is Some <==> route_table()[i].endpoint
            == Endpoint::RestoreDatabase,
        allowance(route_table()[i], a) is Some && allowance(route_table()[i], a) == allowance(
            route_table()[j],
            b,
        ) <==> route_table()[i].endpoint == Endpoint::RestoreDatabase && route_table()[j].endpoint
            == Endpoint::RestoreDatabase && a == b,
{
}

/// Where each endpoint is: making a backup and restoring one are posts, the list is got, and each
/// backup is deleted at its place below the list and got from `download` below that.
pub proof fn law_endpoints_are_mounted(route: RouteView)
    ensures
        route_table().len() == 5,
        route_table().contains(route) ==> match route.endpoint {
            Endpoint::BackupDatabase => route.method == Method::Post && route.path
                == "/utilities/database/backup"@,
            Endpoint::ListBackupFiles => route.method == Method::Get && route.path
                == "/utilities/database/backups"@,
            Endpoint::DownloadBackupFile => route.method == Method::Get && route.path
                == "/utilities/database/backups"@ + "/{filename}"@ + "/download"@,
            Endpoint::DeleteBackupFile => route.method == Method::Delete && route.path
                == "/utilities/database/backups"@ + "/{filename}"@,
            Endpoint::RestoreDatabase => route.method == Method::Post && route.path
                == "/utilities/database/restore"@,
        },
        route_table().contains(route) ==> (route.limit matches Some(limit) ==> limit.key
            == LimitKey::PeerIp && limit.period_secs == 20 && limit.burst == 3),
{
    reveal_strlit("/utilities/database/backups");
    reveal_strlit("/{filename}");
    reveal_strlit("/download");
    reveal_strlit("/utilities/database/backups/{filename}/download");
    reveal_strlit("/utilities/database/backups/{filename}");
    assert("/utilities/database/backups/{filename}"@ == "/utilities/database/backups"@
        + "/{filename}"@);
    assert("/utilities/database/backups/{filename}/download"@ == "/utilities/database/backups"@
        + "/{filename}"@ + "/download"@);
    if route_table().contains(route) {
        let i = choose|i: int| 0 <= i < route_table().len() && route_table()[i] == route;
        assert(0 <= i < 5);
    }
}

} // verus!
