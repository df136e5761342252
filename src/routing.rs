//! The routing table: fronts map `(hostname, path prefix, port)` to an application, and each
//! application has an ordered list of backends picked in turn.
use vstd::prelude::*;

verus! {

/// Compares two byte strings exactly.
pub fn bytes_eq(a: &[u8], b: &[u8]) -> (r: bool)
    ensures
        r == (a@ == b@),
{
    if a.len() != b.len() {
        return false;
    }
    let mut i: usize = 0;
    while i < a.len()
        invariant
            a@.len() == b@.len(),
            i <= a@.len(),
            forall|j: int| 0 <= j < i ==> a@[j] == b@[j],
        decreases a@.len() - i,
    {
        if a[i] != b[i] {
            return false;
        }
        i = i + 1;
    }
    assert(a@ =~= b@);
    true
}

/// Whether `p` begins `s`.
pub fn starts_with(s: &[u8], p: &[u8]) -> (r: bool)
    ensures
        r == (p@.len() <= s@.len() && s@.subrange(0, p@.len() as int) == p@),
{
    if p.len() > s.len() {
        return false;
    }
    let mut i: usize = 0;
    while i < p.len()
        invariant
            p@.len() <= s@.len(),
            i <= p@.len(),
            forall|j: int| 0 <= j < i ==> s@[j] == p@[j],
        decreases p@.len() - i,
    {
        if s[i] != p[i] {
            assert(s@.subrange(0, p@.len() as int)[i as int] != p@[i as int]);
            return false;
        }
        i = i + 1;
    }
    assert(s@.subrange(0, p@.len() as int) =~= p@);
    true
}

/// Where a trailing run of digits starts in `h[..hi]`.
pub open spec fn digits_start(h: Seq<u8>, hi: int) -> int
    decreases hi,
{
    if hi > 0 && hi <= h.len() && 48 <= h[hi - 1] && h[hi - 1] <= 57 {
        digits_start(h, hi - 1)
    } else {
        hi
    }
}

/// A `Host` value without its `:port` suffix, if it has one.
pub open spec fn host_without_port(h: Seq<u8>) -> Seq<u8> {
    let d = digits_start(h, h.len() as int);
    if 0 < d && d <= h.len() && h[d - 1] == 58 {
        h.subrange(0, d - 1)
    } else {
        h
    }
}

proof fn lemma_digits_start_bounds(h: Seq<u8>, hi: int)
    requires
        0 <= hi <= h.len(),
    ensures
        0 <= digits_start(h, hi) <= hi,
    decreases hi,
{
    if hi > 0 && 48 <= h[hi - 1] && h[hi - 1] <= 57 {
        lemma_digits_start_bounds(h, hi - 1);
    }
}

/// Cuts a `:port` suffix off a `Host` value.
pub fn strip_port(h: &[u8]) -> (r: &[u8])
    ensures
        r@ == host_without_port(h@),
{
    let mut d: usize = h.len();
    while d > 0 && 48 <= h[d - 1] && h[d - 1] <= 57
        invariant
            d <= h@.len(),
            digits_start(h@, d as int) == digits_start(h@, h@.len() as int),
        decreases d,
    {
        d = d - 1;
    }
    if d > 0 && h[d - 1] == 58 {
        vstd::slice::slice_subrange(h, 0, d - 1)
    } else {
        h
    }
}

/// A routing entry: requests for `hostname` on `port` whose path begins with `path_begin` go
/// to application `app_id`.
#[derive(Debug)]
pub struct HttpFront {
    pub app_id: Vec<u8>,
    pub hostname: Vec<u8>,
    pub path_begin: Vec<u8>,
    pub port: u16,
}

pub struct FrontModel {
    pub app_id: Seq<u8>,
    pub hostname: Seq<u8>,
    pub path_begin: Seq<u8>,
    pub port: u16,
}

impl View for HttpFront {
    type V = FrontModel;

    open spec fn view(&self) -> FrontModel {
        FrontModel { app_id: self.app_id@, hostname: self.hostname@, path_begin: self.path_begin@, port: self.port }
    }
}

impl HttpFront {
    pub fn new(app_id: Vec<u8>, hostname: Vec<u8>, path_begin: Vec<u8>, port: u16) -> (r: Self)
        ensures
            r@ == (FrontModel { app_id: app_id@, hostname: hostname@, path_begin: path_begin@, port }),
    {
        HttpFront { app_id, hostname, path_begin, port }
    }

    fn copy(&self) -> (r: Self)
        ensures
            r@ == self@,
    {
        HttpFront {
            app_id: self.app_id.clone(),
            hostname: self.hostname.clone(),
            path_begin: self.path_begin.clone(),
            port: self.port,
        }
    }
}

/// Two fronts share a key when hostname, path prefix and port agree.
pub open spec fn same_key(a: FrontModel, b: FrontModel) -> bool {
    a.hostname == b.hostname && a.path_begin == b.path_begin && a.port == b.port
}

/// A backend of an application.
#[derive(Debug)]
pub struct Backend {
    pub address: Vec<u8>,
    pub port: u16,
    pub alive: bool,
}

pub struct BackendModel {
    pub address: Seq<u8>,
    pub port: u16,
    pub alive: bool,
}

impl View for Backend {
    type V = BackendModel;

    open spec fn view(&self) -> BackendModel {
        BackendModel { address: self.address@, port: self.port, alive: self.alive }
    }
}

impl Backend {
    pub fn new(address: Vec<u8>, port: u16) -> (r: Self)
        ensures
            r@ == (BackendModel { address: address@, port, alive: true }),
    {
        Backend { address, port, alive: true }
    }

    fn copy(&self) -> (r: Self)
        ensures
            r@ == self@,
    {
        Backend { address: self.address.clone(), port: self.port, alive: self.alive }
    }
}

/// The backends of one application, with the round-robin cursor.
pub struct Pool {
    pub app_id: Vec<u8>,
    pub backends: Vec<Backend>,
    pub cursor: usize,
}

pub struct PoolModel {
    pub app_id: Seq<u8>,
    pub backends: Seq<BackendModel>,
    pub cursor: nat,
}

impl View for Pool {
    type V = PoolModel;

    open spec fn view(&self) -> PoolModel {
        PoolModel {
            app_id: self.app_id@,
            backends: self.backends@.map_values(|b: Backend| b@),
            cursor: self.cursor as nat,
        }
    }
}

/// Why a configuration order was refused.
#[derive(Clone, Copy, PartialEq, Eq, Debug)]
pub enum ConfigError {
    /// A front with the same hostname, path prefix and port leads to another application.
    ConflictingFront,
}

/// The routing table of a worker or of the master.
pub struct ConfigState {
    pub http_fronts: Vec<HttpFront>,
    pub pools: Vec<Pool>,
}

pub struct StateModel {
    pub fronts: Seq<FrontModel>,
    pub pools: Seq<PoolModel>,
}

impl View for ConfigState {
    type V = StateModel;

    open spec fn view(&self) -> StateModel {
        StateModel {
            fronts: self.http_fronts@.map_values(|f: HttpFront| f@),
            pools: self.pools@.map_values(|p: Pool| p@),
        }
    }
}

/// The index of a front with the key of `f`, if there is one.
pub open spec fn key_index(fronts: Seq<FrontModel>, f: FrontModel) -> Option<int> {
    if exists|i: int| 0 <= i < fronts.len() && same_key(#[trigger] fronts[i], f) {
        Some(choose|i: int| 0 <= i < fronts.len() && same_key(#[trigger] fronts[i], f))
    } else {
        None
    }
}

/// Fronts keys are unique.
pub open spec fn keys_unique(fronts: Seq<FrontModel>) -> bool {
    forall|i: int, j: int| 0 <= i < j < fronts.len() ==> !same_key(#[trigger] fronts[i], #[trigger] fronts[j])
}

/// The outcome of adding front `f`: unchanged when a front with its key exists, else appended.
pub open spec fn add_front_spec(fronts: Seq<FrontModel>, f: FrontModel) -> Seq<FrontModel> {
    if key_index(fronts, f) is Some {
        fronts
    } else {
        fronts.push(f)
    }
}

/// Whether adding `f` is refused: a front with its key leads elsewhere.
pub open spec fn add_front_conflicts(fronts: Seq<FrontModel>, f: FrontModel) -> bool {
    key_index(fronts, f) is Some && fronts[key_index(fronts, f)->Some_0].app_id != f.app_id
}

/// The outcome of removing `f`: the front equal to it goes, if there is one.
pub open spec fn remove_front_spec(fronts: Seq<FrontModel>, f: FrontModel) -> Seq<FrontModel> {
    match key_index(fronts, f) {
        Some(i) => if fronts[i] == f {
            fronts.remove(i)
        } else {
            fronts
        },
        None => fronts,
    }
}

/// Whether front `f` serves a request for `host` and `path` on `port`.
pub open spec fn front_matches(f: FrontModel, host: Seq<u8>, path: Seq<u8>, port: u16) -> bool {
    f.hostname == host && f.port == port && f.path_begin.len() <= path.len() && path.subrange(0, f.path_begin.len() as int) == f.path_begin
}

/// Front `i` is the one a request resolves to: it matches, no matching front has a longer
/// prefix, and none before it has one as long.
pub open spec fn best_front(fronts: Seq<FrontModel>, host: Seq<u8>, path: Seq<u8>, port: u16, i: int) -> bool {
    &&& 0 <= i < fronts.len()
    &&& front_matches(fronts[i], host, path, port)
    &&& forall|j: int| 0 <= j < fronts.len() && front_matches(#[trigger] fronts[j], host, path, port)
        ==> fronts[j].path_begin.len() <= fronts[i].path_begin.len()
            && (fronts[j].path_begin.len() == fronts[i].path_begin.len() ==> i <= j)
}

pub open spec fn no_front(fronts: Seq<FrontModel>, host: Seq<u8>, path: Seq<u8>, port: u16) -> bool {
    forall|j: int| 0 <= j < fronts.len() ==> !front_matches(#[trigger] fronts[j], host, path, port)
}

/// The position of the pool of application `app`, if there is one.
pub open spec fn pool_index(pools: Seq<PoolModel>, app: Seq<u8>, i: int) -> bool {
    0 <= i < pools.len() && pools[i].app_id == app && forall|j: int| 0 <= j < i ==> (#[trigger] pools[j]).app_id != app
}

pub open spec fn no_pool(pools: Seq<PoolModel>, app: Seq<u8>) -> bool {
    forall|j: int| 0 <= j < pools.len() ==> (#[trigger] pools[j]).app_id != app
}

/// The backend `t` places after the cursor, going round a pool of `k`.
pub open spec fn slot(cursor: nat, k: nat, t: int) -> int {
    let c = (cursor % k) as int;
    if c + t < k { c + t } else { c + t - k }
}

/// `t` is how far after the cursor the next live backend stands.
pub open spec fn next_live(p: PoolModel, t: int) -> bool {
    let k = p.backends.len();
    &&& 0 <= t < k
    &&& p.backends[slot(p.cursor, k, t)].alive
    &&& forall|u: int| 0 <= u < t ==> !(#[trigger] p.backends[slot(p.cursor, k, u)]).alive
}

/// The pool after handing out the backend `t` places after the cursor.
pub open spec fn advance(p: PoolModel, t: int) -> PoolModel {
    let k = p.backends.len();
    PoolModel { cursor: ((slot(p.cursor, k, t) + 1) % (k as int)) as nat, ..p }
}

pub open spec fn none_alive(p: PoolModel) -> bool {
    forall|u: int| 0 <= u < p.backends.len() ==> !(#[trigger] p.backends[u]).alive
}

/// What picking a backend of `app` did: `None` and no change when the application has no pool
/// or no live backend; else the next live backend after the cursor, with the cursor moved past it.
pub open spec fn pick_outcome(before: StateModel, after: StateModel, app: Seq<u8>, r: Option<BackendModel>) -> bool {
    match r {
        None => after == before && (no_pool(before.pools, app)
            || exists|i: int| pool_index(before.pools, app, i) && none_alive(#[trigger] before.pools[i])),
        Some(b) => after.fronts == before.fronts && exists|i: int, t: int|
            pool_index(before.pools, app, i) && next_live(#[trigger] before.pools[i], t)
                && b == before.pools[i].backends[slot(before.pools[i].cursor, before.pools[i].backends.len(), t)]
                && after.pools == before.pools.update(i, #[trigger] advance(before.pools[i], t)),
    }
}

/// Where a request goes.
#[derive(Debug)]
pub enum RouteDecision {
    /// No front serves the request.
    NotFound,
    /// The application has no live backend.
    Unavailable,
    /// Forward to this backend of this application.
    Forward(Vec<u8>, Backend),
}

impl ConfigState {
    pub open spec fn wf(&self) -> bool {
        keys_unique(self@.fronts)
    }

    pub fn new() -> (r: Self)
        ensures
            r@.fronts.len() == 0,
            r@.pools.len() == 0,
            r.wf(),
    {
        ConfigState { http_fronts: Vec::new(), pools: Vec::new() }
    }

    fn find_key(&self, f: &HttpFront) -> (r: Option<usize>)
        requires
            self.wf(),
        ensures
            match r {
                Some(i) => i < self@.fronts.len() && same_key(self@.fronts[i as int], f@)
                    && key_index(self@.fronts, f@) == Some(i as int),
                None => key_index(self@.fronts, f@) is None,
            },
    {
        let mut i: usize = 0;
        while i < self.http_fronts.len()
            invariant
                i <= self.http_fronts@.len(),
                self.wf(),
                forall|j: int| 0 <= j < i ==> !same_key(#[trigger] self@.fronts[j], f@),
            decreases self.http_fronts@.len() - i,
        {
            let g = &self.http_fronts[i];
            assert(self@.fronts[i as int] == g@);
            if bytes_eq(g.hostname.as_slice(), f.hostname.as_slice()) && bytes_eq(
                g.path_begin.as_slice(),
                f.path_begin.as_slice(),
            ) && g.port == f.port {
                assert(same_key(self@.fronts[i as int], f@));
                let ghost c = choose|j: int| 0 <= j < self@.fronts.len() && same_key(#[trigger] self@.fronts[j], f@);
                assert(c == i) by {
                    if c != i {
                        assert(same_key(self@.fronts[c], self@.fronts[i as int]));
                        if c < i {
                            assert(!same_key(self@.fronts[c], self@.fronts[i as int]));
                        } else {
                            assert(!same_key(self@.fronts[i as int], self@.fronts[c]));
                        }
                    }
                }
                return Some(i);
            }
            i = i + 1;
        }
        None
    }

    /// Adds a front. Adding one that is already there changes nothing; one whose key leads to
    /// another application is refused.
    pub fn add_http_front(&mut self, front: HttpFront) -> (r: Result<(), ConfigError>)
        requires
            old(self).wf(),
        ensures
            final(self).wf(),
            final(self)@.pools == old(self)@.pools,
            r is Err <==> add_front_conflicts(old(self)@.fronts, front@),
            r is Err ==> final(self)@.fronts == old(self)@.fronts,
            r is Ok ==> final(self)@.fronts == add_front_spec(old(self)@.fronts, front@),
    {
        match self.find_key(&front) {
            Some(i) => {
                assert(self@.fronts[i as int] == self.http_fronts@[i as int]@);
                if bytes_eq(self.http_fronts[i].app_id.as_slice(), front.app_id.as_slice()) {
                    Ok(())
                } else {
                    Err(ConfigError::ConflictingFront)
                }
            },
            None => {
                let ghost before = self@.fronts;
                self.http_fronts.push(front);
                assert(self@.fronts =~= before.push(front@));
                assert(keys_unique(self@.fronts)) by {
                    assert forall|i: int, j: int| 0 <= i < j < self@.fronts.len() implies !same_key(#[trigger] self@.fronts[i], #[trigger] self@.fronts[j]) by {
                        if j == before.len() {
                            assert(self@.fronts[i] == before[i]);
                            if same_key(before[i], front@) {
                                assert(key_index(before, front@) is Some);
                            }
                        } else {
                            assert(self@.fronts[i] == before[i] && self@.fronts[j] == before[j]);
                        }
                    }
                }
                Ok(())
            },
        }
    }

    /// Removes the front equal to `front`; removing one that is not there is no error.
    pub fn remove_http_front(&mut self, front: &HttpFront) -> (r: Result<(), ConfigError>)
        requires
            old(self).wf(),
        ensures
            r is Ok,
            final(self).wf(),
            final(self)@.pools == old(self)@.pools,
            final(self)@.fronts == remove_front_spec(old(self)@.fronts, front@),
    {
        if let Some(i) = self.find_key(front) {
            assert(self@.fronts[i as int] == self.http_fronts@[i as int]@);
            if bytes_eq(self.http_fronts[i].app_id.as_slice(), front.app_id.as_slice()) {
                let ghost before = self@.fronts;
                assert(before[i as int] == front@);
                self.http_fronts.remove(i);
                assert(self@.fronts =~= before.remove(i as int));
                assert forall|a: int, b: int| 0 <= a < b < self@.fronts.len() implies !same_key(#[trigger] self@.fronts[a], #[trigger] self@.fronts[b]) by {
                    let a0 = if a < i { a } else { a + 1 };
                    let b0 = if b < i { b } else { b + 1 };
                    assert(self@.fronts[a] == before[a0]);
                    assert(self@.fronts[b] == before[b0]);
                }
            }
        }
        Ok(())
    }
}

impl ConfigState {
    /// The front a request for `host` (without port) and `path` on `port` resolves to: the
    /// matching front with the longest path prefix, the earliest among equals.
    pub fn lookup(&self, host: &[u8], path: &[u8], port: u16) -> (r: Option<usize>)
        ensures
            match r {
                Some(i) => best_front(self@.fronts, host@, path@, port, i as int),
                None => no_front(self@.fronts, host@, path@, port),
            },
    {
        let mut best: Option<usize> = None;
        let mut i: usize = 0;
        while i < self.http_fronts.len()
            invariant
                i <= self.http_fronts@.len(),
                match best {
                    Some(b) => b < i && front_matches(self@.fronts[b as int], host@, path@, port)
                        && forall|j: int| 0 <= j < i && front_matches(#[trigger] self@.fronts[j], host@, path@, port)
                            ==> self@.fronts[j].path_begin.len() <= self@.fronts[b as int].path_begin.len()
                                && (self@.fronts[j].path_begin.len() == self@.fronts[b as int].path_begin.len() ==> b <= j),
                    None => forall|j: int| 0 <= j < i ==> !front_matches(#[trigger] self@.fronts[j], host@, path@, port),
                },
            decreases self.http_fronts@.len() - i,
        {
            let f = &self.http_fronts[i];
            assert(self@.fronts[i as int] == f@);
            if bytes_eq(f.hostname.as_slice(), host) && f.port == port && starts_with(path, f.path_begin.as_slice()) {
                match best {
                    Some(b) => {
                        assert(self@.fronts[b as int] == self.http_fronts@[b as int]@);
                        if f.path_begin.len() > self.http_fronts[b].path_begin.len() {
                            best = Some(i);
                        }
                    },
                    None => {
                        best = Some(i);
                    },
                }
            }
            i = i + 1;
        }
        best
    }

    fn find_pool(&self, app: &[u8]) -> (r: Option<usize>)
        ensures
            match r {
                Some(i) => pool_index(self@.pools, app@, i as int),
                None => no_pool(self@.pools, app@),
            },
    {
        let mut i: usize = 0;
        while i < self.pools.len()
            invariant
                i <= self.pools@.len(),
                forall|j: int| 0 <= j < i ==> (#[trigger] self@.pools[j]).app_id != app@,
            decreases self.pools@.len() - i,
        {
            assert(self@.pools[i as int] == self.pools@[i as int]@);
            if bytes_eq(self.pools[i].app_id.as_slice(), app) {
                return Some(i);
            }
            i = i + 1;
        }
        None
    }

    /// Hands out the next live backend of application `app`, round-robin, and moves the cursor
    /// past it. `None`, with nothing changed, when the application has no live backend.
    pub fn pick_backend(&mut self, app: &[u8]) -> (r: Option<Backend>)
        requires
            old(self).wf(),
        ensures
            final(self).wf(),
            final(self)@.fronts == old(self)@.fronts,
            pick_outcome(old(self)@, final(self)@, app@, match r {
                Some(b) => Some(b@),
                None => None,
            }),
    {
        let i = match self.find_pool(app) {
            Some(i) => i,
            None => {
                return None;
            },
        };
        let ghost p = self@.pools[i as int];
        assert(p == self.pools@[i as int]@);
        let k = self.pools[i].backends.len();
        let c = self.pools[i].cursor % if k == 0 { 1 } else { k };
        let mut t: usize = 0;
        while t < k
            invariant
                k == p.backends.len(),
                t <= k,
                k > 0 ==> c == p.cursor % (k as nat),
                p == self.pools@[i as int]@,
                i < self.pools@.len(),
                self@ == old(self)@,
                self.wf(),
                pool_index(old(self)@.pools, app@, i as int),
                forall|u: int| 0 <= u < t ==> !(#[trigger] p.backends[slot(p.cursor, k as nat, u)]).alive,
            decreases k - t,
        {
            let idx = if t < k - c { c + t } else { t - (k - c) };
            assert(idx == slot(p.cursor, k as nat, t as int));
            assert(p.backends[idx as int] == self.pools@[i as int].backends@[idx as int]@);
            if self.pools[i].backends[idx].alive {
                let picked = self.pools[i].backends[idx].copy();
                let ghost before = self@;
                let mut pool = self.pools.remove(i);
                pool.cursor = if idx + 1 == k { 0 } else { idx + 1 };
                proof {
                    if idx + 1 == k {
                        vstd::arithmetic::div_mod::lemma_mod_self_0(k as int);
                    } else {
                        vstd::arithmetic::div_mod::lemma_small_mod((idx + 1) as nat, k as nat);
                    }
                }
                self.pools.insert(i, pool);
                assert(self@.pools =~= before.pools.update(i as int, advance(p, t as int)));
                assert(self@.fronts == before.fronts);
                assert(next_live(p, t as int));
                assert(old(self)@.pools[i as int] == p);
                assert(picked@ == p.backends[idx as int]);
                assert(pool_index(old(self)@.pools, app@, i as int) && next_live(old(self)@.pools[i as int], t as int)
                    && picked@ == old(self)@.pools[i as int].backends[slot(old(self)@.pools[i as int].cursor, old(self)@.pools[i as int].backends.len(), t as int)]
                    && self@.pools == old(self)@.pools.update(i as int, advance(old(self)@.pools[i as int], t as int)));
                return Some(picked);
            }
            t = t + 1;
        }
        assert(none_alive(p)) by {
            assert forall|u: int| 0 <= u < p.backends.len() implies !(#[trigger] p.backends[u]).alive by {
                let tt = if u >= c { u - c } else { u + k - c };
                assert(slot(p.cursor, k as nat, tt) == u);
            }
        }
        None
    }
}

/// `j` is the first backend of `bs` at `address` and `port`.
pub open spec fn backend_index(bs: Seq<BackendModel>, address: Seq<u8>, port: u16, j: int) -> bool {
    &&& 0 <= j < bs.len()
    &&& bs[j].address == address && bs[j].port == port
    &&& forall|u: int| 0 <= u < j ==> !((#[trigger] bs[u]).address == address && bs[u].port == port)
}

pub open spec fn no_backend(bs: Seq<BackendModel>, address: Seq<u8>, port: u16) -> bool {
    forall|u: int| 0 <= u < bs.len() ==> !((#[trigger] bs[u]).address == address && bs[u].port == port)
}

/// The pools after adding backend `b` to application `app`: a new pool when it has none,
/// nothing when the backend is already listed, else the backend goes last.
pub open spec fn add_backend_spec(pools: Seq<PoolModel>, app: Seq<u8>, b: BackendModel) -> Seq<PoolModel> {
    if exists|i: int| pool_index(pools, app, i) {
        let i = choose|i: int| pool_index(pools, app, i);
        let p = pools[i];
        if exists|j: int| backend_index(p.backends, b.address, b.port, j) {
            pools
        } else {
            pools.update(i, PoolModel { backends: p.backends.push(b), ..p })
        }
    } else {
        pools.push(PoolModel { app_id: app, backends: seq![b], cursor: 0 })
    }
}

/// The pools after removing the backend of `app` at `address` and `port`, if it is listed.
pub open spec fn remove_backend_spec(pools: Seq<PoolModel>, app: Seq<u8>, address: Seq<u8>, port: u16) -> Seq<PoolModel> {
    if exists|i: int| pool_index(pools, app, i) {
        let i = choose|i: int| pool_index(pools, app, i);
        let p = pools[i];
        if exists|j: int| backend_index(p.backends, address, port, j) {
            let j = choose|j: int| backend_index(p.backends, address, port, j);
            pools.update(i, PoolModel { backends: p.backends.remove(j), ..p })
        } else {
            pools
        }
    } else {
        pools
    }
}

/// The pools after marking the backend of `app` at `address` and `port` live or dead.
pub open spec fn set_alive_spec(pools: Seq<PoolModel>, app: Seq<u8>, address: Seq<u8>, port: u16, alive: bool) -> Seq<PoolModel> {
    if exists|i: int| pool_index(pools, app, i) {
        let i = choose|i: int| pool_index(pools, app, i);
        let p = pools[i];
        if exists|j: int| backend_index(p.backends, address, port, j) {
            let j = choose|j: int| backend_index(p.backends, address, port, j);
            pools.update(i, PoolModel { backends: p.backends.update(j, BackendModel { alive, ..p.backends[j] }), ..p })
        } else {
            pools
        }
    } else {
        pools
    }
}

proof fn lemma_pool_index_unique(pools: Seq<PoolModel>, app: Seq<u8>, i: int, j: int)
    requires
        pool_index(pools, app, i),
        pool_index(pools, app, j),
    ensures
        i == j,
{
    if i < j {
        assert(pools[i].app_id != app);
    } else if j < i {
        assert(pools[j].app_id != app);
    }
}

proof fn lemma_backend_index_unique(bs: Seq<BackendModel>, address: Seq<u8>, port: u16, i: int, j: int)
    requires
        backend_index(bs, address, port, i),
        backend_index(bs, address, port, j),
    ensures
        i == j,
{
    if i < j {
        assert(!(bs[i].address == address && bs[i].port == port));
    } else if j < i {
        assert(!(bs[j].address == address && bs[j].port == port));
    }
}

proof fn lemma_remove_backend_at(pools: Seq<PoolModel>, app: Seq<u8>, address: Seq<u8>, port: u16, i: int, j: int)
    requires
        pool_index(pools, app, i),
        backend_index(pools[i].backends, address, port, j),
    ensures
        remove_backend_spec(pools, app, address, port) == pools.update(i, PoolModel { backends: pools[i].backends.remove(j), ..pools[i] }),
{
    let i2 = choose|i2: int| pool_index(pools, app, i2);
    lemma_pool_index_unique(pools, app, i, i2);
    let j2 = choose|j2: int| backend_index(pools[i].backends, address, port, j2);
    lemma_backend_index_unique(pools[i].backends, address, port, j, j2);
}

proof fn lemma_set_alive_at(pools: Seq<PoolModel>, app: Seq<u8>, address: Seq<u8>, port: u16, alive: bool, i: int, j: int)
    requires
        pool_index(pools, app, i),
        backend_index(pools[i].backends, address, port, j),
    ensures
        set_alive_spec(pools, app, address, port, alive) == pools.update(
            i,
            PoolModel { backends: pools[i].backends.update(j, BackendModel { alive, ..pools[i].backends[j] }), ..pools[i] },
        ),
{
    let i2 = choose|i2: int| pool_index(pools, app, i2);
    lemma_pool_index_unique(pools, app, i, i2);
    let j2 = choose|j2: int| backend_index(pools[i].backends, address, port, j2);
    lemma_backend_index_unique(pools[i].backends, address, port, j, j2);
}

fn find_backend(bs: &Vec<Backend>, address: &[u8], port: u16) -> (r: Option<usize>)
    ensures
        match r {
            Some(j) => backend_index(bs@.map_values(|b: Backend| b@), address@, port, j as int),
            None => no_backend(bs@.map_values(|b: Backend| b@), address@, port),
        },
{
    let ghost m = bs@.map_values(|b: Backend| b@);
    let mut j: usize = 0;
    while j < bs.len()
        invariant
            j <= bs@.len(),
            m == bs@.map_values(|b: Backend| b@),
            forall|u: int| 0 <= u < j ==> !((#[trigger] m[u]).address == address@ && m[u].port == port),
        decreases bs@.len() - j,
    {
        assert(m[j as int] == bs@[j as int]@);
        if bytes_eq(bs[j].address.as_slice(), address) && bs[j].port == port {
            return Some(j);
        }
        j = j + 1;
    }
    None
}

impl ConfigState {
    /// Adds a backend to an application; adding one already listed changes nothing.
    pub fn add_backend(&mut self, app_id: Vec<u8>, backend: Backend) -> (r: Result<(), ConfigError>)
        requires
            old(self).wf(),
        ensures
            r is Ok,
            final(self).wf(),
            final(self)@.fronts == old(self)@.fronts,
            final(self)@.pools == add_backend_spec(old(self)@.pools, app_id@, backend@),
    {
        let ghost before = self@;
        match self.find_pool(app_id.as_slice()) {
            None => {
                let mut backends = Vec::new();
                backends.push(backend);
                let pool = Pool { app_id, backends, cursor: 0 };
                self.pools.push(pool);
                assert(self@.pools[before.pools.len() as int].backends =~= seq![backend@]);
                assert(self@.pools =~= add_backend_spec(before.pools, pool.app_id@, backend@));
            },
            Some(i) => {
                proof {
                    assert forall|x: int| pool_index(before.pools, app_id@, x) implies x == i by {
                        lemma_pool_index_unique(before.pools, app_id@, x, i as int);
                    }
                }
                assert(before.pools[i as int] == self.pools@[i as int]@);
                assert(before.pools[i as int].backends == self.pools@[i as int].backends@.map_values(|b: Backend| b@));
                match find_backend(&self.pools[i].backends, backend.address.as_slice(), backend.port) {
                    Some(j) => {
                        assert(backend_index(before.pools[i as int].backends, backend@.address, backend@.port, j as int));
                        assert(pool_index(before.pools, app_id@, i as int));
                        assert(self@ == before);
                    },
                    None => {
                        let mut pool = self.pools.remove(i);
                        let ghost prev = pool@;
                        pool.backends.push(backend);
                        assert(pool@ == PoolModel { backends: prev.backends.push(backend@), ..prev }) by {
                            assert(pool@.backends =~= prev.backends.push(backend@));
                        }
                        self.pools.insert(i, pool);
                        assert(self@.pools =~= before.pools.update(i as int, PoolModel { backends: prev.backends.push(backend@), ..prev }));
                    },
                }
            },
        }
        Ok(())
    }

    /// Removes a backend from an application; removing one not listed is no error.
    pub fn remove_backend(&mut self, app_id: &[u8], address: &[u8], port: u16) -> (r: Result<(), ConfigError>)
        requires
            old(self).wf(),
        ensures
            r is Ok,
            final(self).wf(),
            final(self)@.fronts == old(self)@.fronts,
            final(self)@.pools == remove_backend_spec(old(self)@.pools, app_id@, address@, port),
    {
        let ghost before = self@;
        if let Some(i) = self.find_pool(app_id) {
            proof {
                assert forall|x: int| pool_index(before.pools, app_id@, x) implies x == i by {
                    lemma_pool_index_unique(before.pools, app_id@, x, i as int);
                }
            }
            assert(before.pools[i as int] == self.pools@[i as int]@);
            assert(before.pools[i as int].backends == self.pools@[i as int].backends@.map_values(|b: Backend| b@));
            let found = find_backend(&self.pools[i].backends, address, port);
            proof {
                if found is None {
                    assert(!exists|j: int| backend_index(before.pools[i as int].backends, address@, port, j));
                    assert(self@ == before);
                }
            }
            if let Some(j) = found {
                let ghost bs = before.pools[i as int].backends;
                proof {
                    assert forall|x: int| backend_index(bs, address@, port, x) implies x == j by {
                        lemma_backend_index_unique(bs, address@, port, x, j as int);
                    }
                }
                let mut pool = self.pools.remove(i);
                let ghost prev = pool@;
                pool.backends.remove(j);
                assert(pool@ == PoolModel { backends: prev.backends.remove(j as int), ..prev }) by {
                    assert(pool@.backends =~= prev.backends.remove(j as int));
                }
                self.pools.insert(i, pool);
                assert(self@.pools =~= before.pools.update(i as int, PoolModel { backends: prev.backends.remove(j as int), ..prev }));
                assert(prev == before.pools[i as int]);
                proof {
                    lemma_remove_backend_at(before.pools, app_id@, address@, port, i as int, j as int);
                }
            }
        } else {
            assert(!exists|x: int| pool_index(before.pools, app_id@, x));
        }
        Ok(())
    }

    /// Marks a backend live or dead; a backend not listed changes nothing.
    pub fn set_backend_alive(&mut self, app_id: &[u8], address: &[u8], port: u16, alive: bool)
        requires
            old(self).wf(),
        ensures
            final(self).wf(),
            final(self)@.fronts == old(self)@.fronts,
            final(self)@.pools == set_alive_spec(old(self)@.pools, app_id@, address@, port, alive),
    {
        let ghost before = self@;
        if let Some(i) = self.find_pool(app_id) {
            proof {
                assert forall|x: int| pool_index(before.pools, app_id@, x) implies x == i by {
                    lemma_pool_index_unique(before.pools, app_id@, x, i as int);
                }
            }
            assert(before.pools[i as int] == self.pools@[i as int]@);
            assert(before.pools[i as int].backends == self.pools@[i as int].backends@.map_values(|b: Backend| b@));
            let found = find_backend(&self.pools[i].backends, address, port);
            proof {
                if found is None {
                    assert(!exists|j: int| backend_index(before.pools[i as int].backends, address@, port, j));
                    assert(self@ == before);
                }
            }
            if let Some(j) = found {
                let ghost bs = before.pools[i as int].backends;
                proof {
                    assert forall|x: int| backend_index(bs, address@, port, x) implies x == j by {
                        lemma_backend_index_unique(bs, address@, port, x, j as int);
                    }
                }
                let mut pool = self.pools.remove(i);
                let ghost prev = pool@;
                let mut b = pool.backends.remove(j);
                b.alive = alive;
                pool.backends.insert(j, b);
                assert(pool@ == PoolModel { backends: prev.backends.update(j as int, BackendModel { alive, ..prev.backends[j as int] }), ..prev }) by {
                    assert(pool@.backends =~= prev.backends.update(j as int, BackendModel { alive, ..prev.backends[j as int] }));
                }
                self.pools.insert(i, pool);
                assert(self@.pools =~= before.pools.update(i as int, PoolModel { backends: prev.backends.update(j as int, BackendModel { alive, ..prev.backends[j as int] }), ..prev }));
                assert(prev == before.pools[i as int]);
                proof {
                    lemma_set_alive_at(before.pools, app_id@, address@, port, alive, i as int, j as int);
                }
            }
        }
    }
}

/// What routing a request for `host` (as the `Host` header gives it), `path` and `port` did.
pub open spec fn route_outcome(before: StateModel, after: StateModel, host: Seq<u8>, path: Seq<u8>, port: u16, r: RouteDecision) -> bool {
    let h = host_without_port(host);
    match r {
        RouteDecision::NotFound => no_front(before.fronts, h, path, port) && after == before,
        RouteDecision::Unavailable => exists|i: int| best_front(before.fronts, h, path, port, i)
            && pick_outcome(before, after, before.fronts[i].app_id, None),
        RouteDecision::Forward(app, b) => exists|i: int| best_front(before.fronts, h, path, port, i)
            && app@ == before.fronts[i].app_id
            && pick_outcome(before, after, app@, Some(b@)),
    }
}

impl ConfigState {
    /// Resolves a request to a front, then picks a backend of its application.
    pub fn route(&mut self, host: &[u8], path: &[u8], port: u16) -> (r: RouteDecision)
        requires
            old(self).wf(),
        ensures
            final(self).wf(),
            route_outcome(old(self)@, final(self)@, host@, path@, port, r),
    {
        let h = strip_port(host);
        match self.lookup(h, path, port) {
            None => RouteDecision::NotFound,
            Some(i) => {
                assert(self@.fronts[i as int] == self.http_fronts@[i as int]@);
                let app = self.http_fronts[i].app_id.clone();
                match self.pick_backend(app.as_slice()) {
                    None => RouteDecision::Unavailable,
                    Some(b) => RouteDecision::Forward(app, b),
                }
            },
        }
    }
}

/// Routing is a function of the table and the request: two fronts that both qualify as the
/// resolution of one request are the same front.
pub proof fn lemma_route_deterministic(fronts: Seq<FrontModel>, host: Seq<u8>, path: Seq<u8>, port: u16, i: int, j: int)
    requires
        best_front(fronts, host, path, port, i),
        best_front(fronts, host, path, port, j),
    ensures
        i == j,
{
    assert(front_matches(fronts[j], host, path, port));
    assert(front_matches(fronts[i], host, path, port));
}

/// The longest prefix wins: when two fronts both match a request and the first one's prefix
/// is shorter, the request does not resolve to the first.
pub proof fn lemma_longest_prefix_wins(fronts: Seq<FrontModel>, host: Seq<u8>, path: Seq<u8>, port: u16, a: int, b: int, i: int)
    requires
        best_front(fronts, host, path, port, i),
        0 <= a < fronts.len(),
        0 <= b < fronts.len(),
        front_matches(fronts[a], host, path, port),
        front_matches(fronts[b], host, path, port),
        fronts[a].path_begin.len() < fronts[b].path_begin.len(),
    ensures
        i != a,
{
    assert(front_matches(fronts[b], host, path, port));
}

/// Adding the same front twice leaves the table as adding it once, and the second addition is
/// not refused when the first was not.
pub proof fn lemma_add_front_idempotent(fronts: Seq<FrontModel>, f: FrontModel)
    requires
        keys_unique(fronts),
        !add_front_conflicts(fronts, f),
    ensures
        add_front_spec(add_front_spec(fronts, f), f) == add_front_spec(fronts, f),
        !add_front_conflicts(add_front_spec(fronts, f), f),
{
    if key_index(fronts, f) is None {
        let g = fronts.push(f);
        assert(same_key(g[fronts.len() as int], f));
        assert(key_index(g, f) is Some);
        let k = key_index(g, f)->Some_0;
        if k < fronts.len() {
            assert(g[k] == fronts[k]);
            assert(same_key(fronts[k], f));
        }
    }
}

/// Removing a front that is not in the table changes nothing.
pub proof fn lemma_remove_absent_front(fronts: Seq<FrontModel>, f: FrontModel)
    requires
        forall|i: int| 0 <= i < fronts.len() ==> fronts[i] != f,
    ensures
        remove_front_spec(fronts, f) == fronts,
{
}

pub open spec fn all_alive(p: PoolModel) -> bool {
    forall|u: int| 0 <= u < p.backends.len() ==> (#[trigger] p.backends[u]).alive
}

/// How many of `n` picks in a row, from pool `p` with every backend live, hand out backend `x`.
pub open spec fn times_picked(p: PoolModel, n: nat, x: int) -> nat
    decreases n,
{
    if n == 0 {
        0
    } else {
        (if slot(p.cursor, p.backends.len(), 0) == x { 1nat } else { 0nat }) + times_picked(advance(p, 0), (n - 1) as nat, x)
    }
}

/// How far backend `x` stands after position `c` in a round of `k`.
pub open spec fn distance(c: int, x: int, k: int) -> int {
    if x >= c { x - c } else { x - c + k }
}

/// In a pool whose backends are all live, a pick hands out the backend at the cursor and
/// moves the cursor one further.
pub proof fn lemma_live_pool_picks_at_cursor(before: StateModel, after: StateModel, app: Seq<u8>, b: BackendModel, i: int)
    requires
        pick_outcome(before, after, app, Some(b)),
        pool_index(before.pools, app, i),
        all_alive(before.pools[i]),
    ensures
        b == before.pools[i].backends[slot(before.pools[i].cursor, before.pools[i].backends.len(), 0)],
        after.pools == before.pools.update(i, advance(before.pools[i], 0)),
{
    let (i2, t) = choose|i2: int, t: int|
        pool_index(before.pools, app, i2) && next_live(#[trigger] before.pools[i2], t)
            && b == before.pools[i2].backends[slot(before.pools[i2].cursor, before.pools[i2].backends.len(), t)]
            && after.pools == before.pools.update(i2, #[trigger] advance(before.pools[i2], t));
    lemma_pool_index_unique(before.pools, app, i, i2);
    let p = before.pools[i];
    if t > 0 {
        let k = p.backends.len();
        vstd::arithmetic::div_mod::lemma_mod_bound(p.cursor as int, k as int);
        assert(!p.backends[slot(p.cursor, k, 0)].alive);
    }
}

proof fn lemma_times_picked_closed(p: PoolModel, n: nat, x: int)
    requires
        p.backends.len() > 0,
        0 <= x < p.backends.len(),
    ensures
        ({
            let k = p.backends.len() as int;
            let c = (p.cursor % (k as nat)) as int;
            times_picked(p, n, x) == (n as int) / k + (if distance(c, x, k) < (n as int) % k { 1int } else { 0int })
        }),
    decreases n,
{
    let k = p.backends.len() as int;
    let c = (p.cursor % (k as nat)) as int;
    vstd::arithmetic::div_mod::lemma_mod_bound(p.cursor as int, k);
    if n == 0 {
        vstd::arithmetic::div_mod::lemma_small_mod(0, k as nat);
        vstd::arithmetic::div_mod::lemma_basic_div(0, k);
    } else {
        let m = (n - 1) as nat;
        let q = advance(p, 0);
        assert(slot(p.cursor, p.backends.len(), 0) == c);
        let c1 = (c + 1) % k;
        assert(q.cursor == c1);
        if c + 1 < k {
            vstd::arithmetic::div_mod::lemma_small_mod((c + 1) as nat, k as nat);
        } else {
            vstd::arithmetic::div_mod::lemma_mod_self_0(k);
        }
        vstd::arithmetic::div_mod::lemma_small_mod(c1 as nat, k as nat);
        lemma_times_picked_closed(q, m, x);
        let qm = (m as int) / k;
        let rm = (m as int) % k;
        vstd::arithmetic::div_mod::lemma_fundamental_div_mod(m as int, k);
        vstd::arithmetic::div_mod::lemma_mod_bound(m as int, k);
        if rm + 1 < k {
            vstd::arithmetic::div_mod::lemma_fundamental_div_mod_converse(n as int, k, qm, rm + 1);
        } else {
            assert(n as int == (qm + 1) * k + 0) by (nonlinear_arith)
                requires
                    n as int == m as int + 1,
                    m as int == k * qm + rm,
                    rm + 1 == k,
            ;
            vstd::arithmetic::div_mod::lemma_fundamental_div_mod_converse(n as int, k, qm + 1, 0);
        }
    }
}

/// Round robin is fair: over `n` picks in a row from a pool of `k` live backends, each backend
/// is handed out `n / k` times, or `n / k + 1` times when `k` does not divide `n`.
pub proof fn lemma_round_robin_fair(p: PoolModel, n: nat, x: int)
    requires
        p.backends.len() > 0,
        0 <= x < p.backends.len(),
    ensures
        ({
            let k = p.backends.len() as int;
            times_picked(p, n, x) == (n as int) / k || ((n as int) % k != 0 && times_picked(p, n, x) == (n as int) / k + 1)
        }),
{
    lemma_times_picked_closed(p, n, x);
    vstd::arithmetic::div_mod::lemma_mod_bound(n as int, p.backends.len() as int);
}

} // verus!
