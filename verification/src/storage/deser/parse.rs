//! Turning the flat list of values read from a saved tree into saved nodes,
//! and hanging the saved nodes under their parents.
use vstd::prelude::*;
use crate::btree::node::Items;
use crate::btree::tree::{items_view, ItemsView};
use crate::mvcc::versions::{Version, VersionInfo, VersionStatus};
use crate::storage::deser::num_or_str::I32OrString;
use crate::storage::deser::tree_nodes::{
    hier_views, kv_views, lemma_hier_of, HierView, HierarchicalNode, KeyVersionNode, KvView,
};

verus! {

/// What the scan of the flat list has gathered so far: the counters that
/// tell which field of which key the next value is, the versions of the key
/// being read, the keys of the node being read and the finished nodes.
pub struct ScanState {
    pub count: int,
    pub n_keys: int,
    pub key: int,
    pub v_single: int,
    pub dec: int,
    pub to_set: bool,
    pub v_all: int,
    pub inspected: int,
    pub vke: int,
    pub rank: int,
    pub xmins: Seq<i32>,
    pub xmaxs: Seq<i32>,
    pub values: Seq<String>,
    pub items: Seq<ItemsView>,
    pub nodes: Seq<KvView>,
}

/// The value fits in an `i32`: the scan's counters never leave that range.
pub open spec fn fits(x: int) -> bool {
    i32::MIN <= x <= i32::MAX
}

/// The number a value holds, if it is one.
pub open spec fn num_of(e: I32OrString) -> Option<i32> {
    match e {
        I32OrString::Num(n) => Some(n),
        I32OrString::Str(_) => None,
    }
}

/// The text a value holds, if it is one.
pub open spec fn str_of(e: I32OrString) -> Option<String> {
    match e {
        I32OrString::Num(_) => None,
        I32OrString::Str(s) => Some(s),
    }
}

pub open spec fn scan_start() -> ScanState {
    ScanState {
        count: 0,
        n_keys: 0,
        key: 0,
        v_single: 0,
        dec: -1,
        to_set: false,
        v_all: 0,
        inspected: 0,
        vke: 0,
        rank: 0,
        xmins: Seq::empty(),
        xmaxs: Seq::empty(),
        values: Seq::empty(),
        items: Seq::empty(),
        nodes: Seq::empty(),
    }
}

/// The value count grows by one.
pub open spec fn step_count(s: ScanState) -> Option<ScanState> {
    if fits(s.count + 1) {
        Some(ScanState { count: s.count + 1, ..s })
    } else {
        None
    }
}

/// At the end of a node, its child count is read and the node is finished
/// with every key read so far.
pub open spec fn step_boundary(s: ScanState, e: I32OrString) -> Option<ScanState> {
    let a = 5 * s.v_all;
    let b = 3 + a;
    let c = b + s.n_keys;
    let bound = c + s.vke;
    if !(fits(a) && fits(b) && fits(c) && fits(bound)) {
        None
    } else if s.count == bound && s.count != 3 && s.v_all != s.v_single && s.n_keys > 0
        && s.inspected == s.n_keys {
        match num_of(e) {
            None => None,
            Some(children) => Some(
                ScanState {
                    v_all: 0,
                    v_single: 0,
                    n_keys: 0,
                    count: 1,
                    dec: -1,
                    inspected: 0,
                    vke: 0,
                    nodes: s.nodes.push(KvView { items: s.items, child_count: children as u32 }),
                    ..s
                },
            ),
        }
    } else {
        Some(s)
    }
}

/// After a key, its number of versions is read.
pub open spec fn step_version_count(s: ScanState, e: I32OrString) -> Option<ScanState> {
    if !s.to_set {
        Some(s)
    } else {
        match num_of(e) {
            None => None,
            Some(v) => {
                let four = 4 * v;
                let dec = four + 1;
                let v_all = s.v_all + v;
                let inspected = s.inspected + 1;
                if !(fits(four) && fits(dec) && fits(v_all) && fits(inspected)) {
                    None
                } else if inspected == s.n_keys && v_all == s.n_keys {
                    if fits(s.vke + 1) {
                        Some(
                            ScanState {
                                v_single: v as int,
                                dec,
                                v_all,
                                to_set: false,
                                inspected,
                                vke: s.vke + 1,
                                ..s
                            },
                        )
                    } else {
                        None
                    }
                } else {
                    Some(
                        ScanState { v_single: v as int, dec, v_all, to_set: false, inspected, ..s },
                    )
                }
            },
        }
    }
}

/// When the countdown is at zero, the value is a key.
pub open spec fn step_key(s: ScanState, e: I32OrString) -> Option<ScanState> {
    if s.dec != 0 {
        Some(s)
    } else {
        match num_of(e) {
            None => None,
            Some(k) => Some(ScanState { key: k as int, to_set: true, dec: -1, ..s }),
        }
    }
}

/// While the countdown runs, the values are the fields of the versions of
/// the current key, four each: the creator, the ender, the length of the
/// text, then the text.
pub open spec fn step_field(s: ScanState, e: I32OrString) -> Option<ScanState> {
    if s.dec <= 0 {
        Some(s)
    } else if !fits(4 * s.v_single) {
        None
    } else if s.dec <= 4 * s.v_single {
        let pushed = if s.dec % 4 == 0 {
            match num_of(e) {
                None => None,
                Some(x) => Some(ScanState { xmins: s.xmins.push(x), ..s }),
            }
        } else if (s.dec + 1) % 4 == 0 {
            match num_of(e) {
                None => None,
                Some(x) => Some(ScanState { xmaxs: s.xmaxs.push(x), ..s }),
            }
        } else if (s.dec + 3) % 4 == 0 {
            match str_of(e) {
                None => None,
                Some(t) => Some(ScanState { values: s.values.push(t), ..s }),
            }
        } else {
            Some(s)
        };
        match pushed {
            None => None,
            Some(p) => Some(ScanState { dec: p.dec - 1, ..p }),
        }
    } else {
        Some(ScanState { dec: s.dec - 1, ..s })
    }
}

/// The versions gathered for one key, paired up in the order read; each is
/// taken as ended, and as a fresh entry in the bookkeeping.
pub open spec fn gathered_versions(xmins: Seq<i32>, xmaxs: Seq<i32>, values: Seq<String>) -> Option<
    Seq<Version>,
> {
    if values.len() < xmins.len() || xmaxs.len() < xmins.len() {
        None
    } else {
        Some(
            Seq::new(
                xmins.len(),
                |j: int|
                    Version {
                        value: values[j],
                        xmin: xmins[j] as u32,
                        xmax: Some(xmaxs[j] as u32),
                        version_info: VersionInfo { version_status: VersionStatus::Active, vid: 0 },
                    },
            ),
        )
    }
}

/// When the countdown reaches zero, the key is finished with its versions.
pub open spec fn step_close(s: ScanState) -> Option<ScanState> {
    if s.dec != 0 {
        Some(s)
    } else {
        match gathered_versions(s.xmins, s.xmaxs, s.values) {
            None => None,
            Some(vs) => Some(
                ScanState {
                    xmins: Seq::empty(),
                    xmaxs: Seq::empty(),
                    values: Seq::empty(),
                    items: s.items.push(
                        ItemsView { key: s.key as u32, rank: s.rank as u32, version: vs },
                    ),
                    ..s
                },
            ),
        }
    }
}

/// The third value of a node is its number of keys, and the one before it
/// is its rank.
pub open spec fn step_header(s: ScanState, e: I32OrString, prev: Option<I32OrString>) -> Option<
    ScanState,
> {
    if s.count != 3 {
        Some(s)
    } else {
        match (num_of(e), prev) {
            (Some(n), Some(p)) => match num_of(p) {
                Some(r) => Some(ScanState { n_keys: n as int, rank: r as int, dec: 0, ..s }),
                None => None,
            },
            _ => None,
        }
    }
}

pub open spec fn then_step(o: Option<ScanState>, f: spec_fn(ScanState) -> Option<ScanState>) -> Option<
    ScanState,
> {
    match o {
        None => None,
        Some(s) => f(s),
    }
}

/// One value of the flat list read, with the value before it at hand.
pub open spec fn scan_step(s: ScanState, e: I32OrString, prev: Option<I32OrString>) -> Option<
    ScanState,
> {
    let s1 = step_count(s);
    let s2 = then_step(s1, |x: ScanState| step_boundary(x, e));
    let s3 = then_step(s2, |x: ScanState| step_version_count(x, e));
    let s4 = then_step(s3, |x: ScanState| step_key(x, e));
    let s5 = then_step(s4, |x: ScanState| step_field(x, e));
    let s6 = then_step(s5, |x: ScanState| step_close(x));
    then_step(s6, |x: ScanState| step_header(x, e, prev))
}

/// The scan after the first `n` values; `None` once a value is not what its
/// place calls for, a counter leaves the `i32` range or a key's fields do not
/// pair up.
pub open spec fn scan(v: Seq<I32OrString>, n: nat) -> Option<ScanState>
    decreases n,
{
    if n == 0 {
        Some(scan_start())
    } else {
        let prev = if n >= 2 {
            Some(v[n - 2])
        } else {
            None
        };
        match scan(v, (n - 1) as nat) {
            None => None,
            Some(s) => scan_step(s, v[n - 1], prev),
        }
    }
}

/// The saved nodes the whole list describes, if it can be read.
pub open spec fn spec_key_version_nodes(v: Seq<I32OrString>) -> Option<Seq<KvView>> {
    match scan(v, v.len()) {
        None => None,
        Some(s) => Some(s.nodes),
    }
}

/// The scan's state while the flat list is read.
struct KvScanner {
    count: i32,
    n_keys: i32,
    key: i32,
    v_single: i32,
    dec: i32,
    to_set: bool,
    v_all: i32,
    inspected: i32,
    vke: i32,
    rank: i32,
    xmins: Vec<i32>,
    xmaxs: Vec<i32>,
    values: Vec<String>,
    items: Vec<Items>,
    nodes: Vec<KeyVersionNode>,
}

impl View for KvScanner {
    type V = ScanState;

    closed spec fn view(&self) -> ScanState {
        ScanState {
            count: self.count as int,
            n_keys: self.n_keys as int,
            key: self.key as int,
            v_single: self.v_single as int,
            dec: self.dec as int,
            to_set: self.to_set,
            v_all: self.v_all as int,
            inspected: self.inspected as int,
            vke: self.vke as int,
            rank: self.rank as int,
            xmins: self.xmins@,
            xmaxs: self.xmaxs@,
            values: self.values@,
            items: items_view(self.items@),
            nodes: kv_views(self.nodes@),
        }
    }
}

/// A copy of a list of keys, equal key by key.
fn duplicate_items(v: &Vec<Items>) -> (r: Vec<Items>)
    ensures
        items_view(r@) == items_view(v@),
{
    let mut r: Vec<Items> = Vec::new();
    let mut i: usize = 0;
    while i < v.len()
        invariant
            i <= v@.len(),
            items_view(r@) == items_view(v@).take(i as int),
        decreases v@.len() - i,
    {
        let ghost before = r@;
        r.push(v[i].duplicate());
        assert(items_view(r@) =~= items_view(before).push(v@[i as int]@));
        assert(items_view(v@).take(i + 1) =~= items_view(v@).take(i as int).push(v@[i as int]@));
        i += 1;
    }
    assert(items_view(v@).take(v@.len() as int) =~= items_view(v@));
    r
}

impl KvScanner {
    fn new() -> (r: KvScanner)
        ensures
            r@ == scan_start(),
    {
        let r = KvScanner {
            count: 0,
            n_keys: 0,
            key: 0,
            v_single: 0,
            dec: -1,
            to_set: false,
            v_all: 0,
            inspected: 0,
            vke: 0,
            rank: 0,
            xmins: Vec::new(),
            xmaxs: Vec::new(),
            values: Vec::new(),
            items: Vec::new(),
            nodes: Vec::new(),
        };
        assert(r@.items =~= Seq::<ItemsView>::empty());
        assert(r@.nodes =~= Seq::<KvView>::empty());
        r
    }

    fn count_up(&mut self) -> (ok: bool)
        ensures
            ok == step_count(old(self)@) is Some,
            ok ==> final(self)@ == step_count(old(self)@)->0,
    {
        if self.count == i32::MAX {
            return false;
        }
        self.count = self.count + 1;
        true
    }

    fn boundary(&mut self, e: &I32OrString) -> (ok: bool)
        ensures
            ok == step_boundary(old(self)@, *e) is Some,
            ok ==> final(self)@ == step_boundary(old(self)@, *e)->0,
    {
        let a = self.v_all.checked_mul(5);
        let a = match a {
            Some(a) => a,
            None => return false,
        };
        let b = match a.checked_add(3) {
            Some(b) => b,
            None => return false,
        };
        let c = match b.checked_add(self.n_keys) {
            Some(c) => c,
            None => return false,
        };
        let bound = match c.checked_add(self.vke) {
            Some(d) => d,
            None => return false,
        };
        if self.count == bound && self.count != 3 && self.v_all != self.v_single && self.n_keys > 0
            && self.inspected == self.n_keys {
            let children = match e.to_i32() {
                Some(n) => n,
                None => return false,
            };
            self.v_all = 0;
            self.v_single = 0;
            self.n_keys = 0;
            let items = duplicate_items(&self.items);
            let ghost before = self.nodes@;
            self.nodes.push(KeyVersionNode { child_count: children as u32, items });
            assert(kv_views(self.nodes@) =~= kv_views(before).push(
                KvView { items: items_view(old(self).items@), child_count: children as u32 },
            ));
            self.count = 1;
            self.dec = -1;
            self.inspected = 0;
            self.vke = 0;
        }
        true
    }

    fn version_count(&mut self, e: &I32OrString) -> (ok: bool)
        ensures
            ok == step_version_count(old(self)@, *e) is Some,
            ok ==> final(self)@ == step_version_count(old(self)@, *e)->0,
    {
        if !self.to_set {
            return true;
        }
        let v = match e.to_i32() {
            Some(n) => n,
            None => return false,
        };
        let four = match v.checked_mul(4) {
            Some(x) => x,
            None => return false,
        };
        let dec = match four.checked_add(1) {
            Some(x) => x,
            None => return false,
        };
        let v_all = match self.v_all.checked_add(v) {
            Some(x) => x,
            None => return false,
        };
        let inspected = match self.inspected.checked_add(1) {
            Some(x) => x,
            None => return false,
        };
        if inspected == self.n_keys && v_all == self.n_keys {
            if self.vke == i32::MAX {
                return false;
            }
            self.vke = self.vke + 1;
        }
        self.v_single = v;
        self.dec = dec;
        self.v_all = v_all;
        self.to_set = false;
        self.inspected = inspected;
        true
    }

    fn key_field(&mut self, e: &I32OrString) -> (ok: bool)
        ensures
            ok == step_key(old(self)@, *e) is Some,
            ok ==> final(self)@ == step_key(old(self)@, *e)->0,
    {
        if self.dec != 0 {
            return true;
        }
        match e.to_i32() {
            Some(k) => {
                self.key = k;
                self.to_set = true;
                self.dec = -1;
                true
            },
            None => false,
        }
    }

    fn version_field(&mut self, e: &I32OrString) -> (ok: bool)
        ensures
            ok == step_field(old(self)@, *e) is Some,
            ok ==> final(self)@ == step_field(old(self)@, *e)->0,
    {
        if self.dec <= 0 {
            return true;
        }
        let limit = match self.v_single.checked_mul(4) {
            Some(x) => x,
            None => return false,
        };
        if self.dec <= limit {
            let d: u32 = self.dec as u32;
            assert(d as int == self.dec as int);
            if d % 4 == 0 {
                match e.to_i32() {
                    Some(x) => self.xmins.push(x),
                    None => return false,
                }
            } else if (d + 1) % 4 == 0 {
                match e.to_i32() {
                    Some(x) => self.xmaxs.push(x),
                    None => return false,
                }
            } else if (d + 3) % 4 == 0 {
                match e.to_string() {
                    Some(t) => self.values.push(t),
                    None => return false,
                }
            }
        }
        self.dec = self.dec - 1;
        true
    }

    fn close_key(&mut self) -> (ok: bool)
        ensures
            ok == step_close(old(self)@) is Some,
            ok ==> final(self)@ == step_close(old(self)@)->0,
    {
        if self.dec != 0 {
            return true;
        }
        let n = self.xmins.len();
        if self.values.len() < n || self.xmaxs.len() < n {
            return false;
        }
        let ghost vs = gathered_versions(self.xmins@, self.xmaxs@, self.values@)->0;
        let mut ver_vec: Vec<Version> = Vec::new();
        let mut j: usize = 0;
        while j < n
            invariant
                n == self.xmins@.len(),
                n <= self.values@.len(),
                n <= self.xmaxs@.len(),
                j <= n,
                vs == gathered_versions(self.xmins@, self.xmaxs@, self.values@)->0,
                vs.len() == n,
                ver_vec@ == vs.take(j as int),
            decreases n - j,
        {
            ver_vec.push(
                Version {
                    value: self.values[j].clone(),
                    xmin: self.xmins[j] as u32,
                    xmax: Some(self.xmaxs[j] as u32),
                    version_info: VersionInfo { version_status: VersionStatus::Active, vid: 0 },
                },
            );
            assert(vs.take(j + 1) =~= vs.take(j as int).push(vs[j as int]));
            j += 1;
        }
        assert(vs.take(n as int) =~= vs);
        self.values.clear();
        self.xmins.clear();
        self.xmaxs.clear();
        let ghost before = self.items@;
        self.items.push(Items { key: self.key as u32, rank: self.rank as u32, version: ver_vec });
        assert(items_view(self.items@) =~= items_view(before).push(
            ItemsView { key: self.key as u32, rank: self.rank as u32, version: vs },
        ));
        true
    }

    fn header(&mut self, e: &I32OrString, prev: Option<&I32OrString>) -> (ok: bool)
        ensures
            ok == step_header(
                old(self)@,
                *e,
                match prev {
                    Some(p) => Some(*p),
                    None => None,
                },
            ) is Some,
            ok ==> final(self)@ == step_header(
                old(self)@,
                *e,
                match prev {
                    Some(p) => Some(*p),
                    None => None,
                },
            )->0,
    {
        if self.count != 3 {
            return true;
        }
        let n = match e.to_i32() {
            Some(n) => n,
            None => return false,
        };
        let p = match prev {
            Some(p) => p,
            None => return false,
        };
        let r = match p.to_i32() {
            Some(r) => r,
            None => return false,
        };
        self.n_keys = n;
        self.rank = r;
        self.dec = 0;
        true
    }
}

impl KvScanner {
    fn step(&mut self, e: &I32OrString, prev: Option<&I32OrString>) -> (ok: bool)
        ensures
            ok == scan_step(
                old(self)@,
                *e,
                match prev {
                    Some(p) => Some(*p),
                    None => None,
                },
            ) is Some,
            ok ==> final(self)@ == scan_step(
                old(self)@,
                *e,
                match prev {
                    Some(p) => Some(*p),
                    None => None,
                },
            )->0,
    {
        if !self.count_up() {
            return false;
        }
        if !self.boundary(e) {
            return false;
        }
        if !self.version_count(e) {
            return false;
        }
        if !self.key_field(e) {
            return false;
        }
        if !self.version_field(e) {
            return false;
        }
        if !self.close_key() {
            return false;
        }
        self.header(e, prev)
    }
}

/// Reads the flat list of values of a saved tree into its saved nodes, in
/// the order they were written. `None` where a value is not what its place
/// calls for (a text where a number belongs or the reverse), a counter
/// leaves the `i32` range, or the fields of a key's versions do not pair up.
pub fn try_get_key_version_node(vec: &Vec<I32OrString>) -> (r: Option<Vec<KeyVersionNode>>)
    ensures
        match r {
            Some(nodes) => spec_key_version_nodes(vec@) == Some(kv_views(nodes@)),
            None => spec_key_version_nodes(vec@) is None,
        },
{
    let mut st = KvScanner::new();
    let mut i: usize = 0;
    while i < vec.len()
        invariant
            i <= vec@.len(),
            scan(vec@, i as nat) == Some(st@),
        decreases vec@.len() - i,
    {
        let prev = if i >= 1 {
            Some(&vec[i - 1])
        } else {
            None
        };
        let ok = st.step(&vec[i], prev);
        if !ok {
            proof {
                lemma_scan_stays_none(vec@, (i + 1) as nat, vec@.len());
            }
            return None;
        }
        i += 1;
    }
    Some(st.nodes)
}

proof fn lemma_scan_stays_none(v: Seq<I32OrString>, n: nat, m: nat)
    requires
        n <= m,
        scan(v, n) is None,
    ensures
        scan(v, m) is None,
    decreases m - n,
{
    if n < m {
        lemma_scan_stays_none(v, n, (m - 1) as nat);
    }
}

/// Reads the flat list of values of a saved tree into its saved nodes, on a
/// list that can be read (see `try_get_key_version_node`).
pub fn get_key_version_node(vec: Vec<I32OrString>) -> (r: Vec<KeyVersionNode>)
    requires
        spec_key_version_nodes(vec@) is Some,
    ensures
        spec_key_version_nodes(vec@) == Some(kv_views(r@)),
{
    match try_get_key_version_node(&vec) {
        Some(nodes) => nodes,
        None => Vec::new(),
    }
}

/// A saved node with nothing under it yet.
pub open spec fn leaf_hier(k: KvView) -> HierView {
    HierView { parent: k, children: Seq::empty() }
}

/// Takes out of `nv`, from position `i` on and in order, the nodes one rank
/// below `req` until `req` has as many children as it counts; `None` where a
/// node without keys is met or `req`'s rank has no rank below it.
pub open spec fn gather(req: KvView, nv: Seq<KvView>, i: int, kids: Seq<HierView>) -> Option<
    (Seq<HierView>, Seq<KvView>),
>
    decreases nv.len() - i,
{
    if i < 0 || !(i < nv.len() && req.child_count > (kids.len() as u32)) {
        Some((kids, nv))
    } else if req.items.len() == 0 || nv[i].items.len() == 0 || req.items[0].rank == u32::MAX {
        None
    } else if req.items[0].rank + 1 == nv[i].items[0].rank {
        gather(req, nv.remove(i), i, kids.push(leaf_hier(nv[i])))
    } else {
        gather(req, nv, i + 1, kids)
    }
}

/// The saved node `req` with its children taken from `nv`, and what is left
/// of `nv`. The children are first taken without what lies under them; then,
/// for each of those that counts children, the same is done for it and the
/// result is added after them.
pub open spec fn hier(req: KvView, nv: Seq<KvView>) -> Option<(HierView, Seq<KvView>)>
    decreases nv.len(), 1int, 0int,
{
    match gather(req, nv, 0, Seq::empty()) {
        None => None,
        Some(g) => {
            let kids = g.0;
            let rest = g.1;
            if kids.len() == 0 {
                Some((HierView { parent: req, children: kids }, rest))
            } else if rest.len() < nv.len() {
                match expand(kids, kids.len() as int, 0, rest) {
                    None => None,
                    Some(e) => Some((HierView { parent: req, children: e.0 }, e.1)),
                }
            } else {
                None
            }
        },
    }
}

/// For each of the first `l` children, from the `i`-th on, that counts
/// children of its own, the child built with what lies under it is added
/// at the end.
pub open spec fn expand(kids: Seq<HierView>, l: int, i: int, nv: Seq<KvView>) -> Option<
    (Seq<HierView>, Seq<KvView>),
>
    decreases nv.len(), 2int, l - i,
{
    if i < 0 || i >= l || i >= kids.len() {
        Some((kids, nv))
    } else if kids[i].parent.child_count != 0 {
        match hier(kids[i].parent, nv) {
            None => None,
            Some(h) => {
                if h.1.len() <= nv.len() {
                    expand(kids.push(h.0), l, i + 1, h.1)
                } else {
                    None
                }
            },
        }
    } else {
        expand(kids, l, i + 1, nv)
    }
}

/// Hangs the saved nodes of `node_vec` under `required_node`, as `hier`
/// says, and takes them out of `node_vec`; `None` where a node without keys
/// is met or a rank has no rank below it.
pub fn try_hierarchical_node(required_node: KeyVersionNode, node_vec: &mut Vec<KeyVersionNode>) -> (r:
    Option<HierarchicalNode>)
    ensures
        match r {
            Some(h) => hier(required_node@, kv_views(old(node_vec)@)) == Some(
                (h@, kv_views(final(node_vec)@)),
            ),
            None => hier(required_node@, kv_views(old(node_vec)@)) is None,
        },
        final(node_vec)@.len() <= old(node_vec)@.len(),
    decreases old(node_vec)@.len(),
{
    let ghost req = required_node@;
    let ghost nv0 = kv_views(node_vec@);
    let ghost n0 = node_vec@.len();
    let mut kids: Vec<HierarchicalNode> = Vec::new();
    let mut i: usize = 0;
    assert(hier_views(kids@) =~= Seq::<HierView>::empty());
    while i < node_vec.len() && required_node.child_count > kids.len() as u32
        invariant
            gather(req, kv_views(node_vec@), i as int, hier_views(kids@)) == gather(
                req,
                nv0,
                0,
                Seq::empty(),
            ),
            node_vec@.len() + kids@.len() == n0,
            req == required_node@,
            nv0 == kv_views(old(node_vec)@),
            n0 == old(node_vec)@.len(),
        decreases node_vec@.len() - i,
    {
        if required_node.items.len() == 0 || node_vec[i].items.len() == 0
            || required_node.items[0].rank == u32::MAX {
            return None;
        }
        if required_node.items[0].rank + 1 == node_vec[i].items[0].rank {
            let ghost nvb = kv_views(node_vec@);
            let ghost kb = hier_views(kids@);
            let n = node_vec.remove(i);
            let leaf = HierarchicalNode { parent: n, children: Vec::new() };
            proof {
                lemma_hier_of(leaf);
                assert(leaf@.children =~= Seq::<HierView>::empty());
                assert(leaf@ == leaf_hier(nvb[i as int]));
            }
            kids.push(leaf);
            assert(kv_views(node_vec@) =~= nvb.remove(i as int));
            assert(hier_views(kids@) =~= kb.push(leaf_hier(nvb[i as int])));
        } else {
            i += 1;
        }
    }
    let l = kids.len();
    if l == 0 {
        let r = HierarchicalNode { parent: required_node, children: kids };
        proof {
            lemma_hier_of(r);
        }
        return Some(r);
    }
    let ghost k0 = hier_views(kids@);
    let ghost r0 = kv_views(node_vec@);
    let mut j: usize = 0;
    while j < l
        invariant
            expand(hier_views(kids@), l as int, j as int, kv_views(node_vec@)) == expand(
                k0,
                l as int,
                0,
                r0,
            ),
            hier(req, nv0) == match expand(k0, l as int, 0, r0) {
                None => None,
                Some(e) => Some((HierView { parent: req, children: e.0 }, e.1)),
            },
            l <= kids@.len(),
            node_vec@.len() < n0,
            req == required_node@,
            nv0 == kv_views(old(node_vec)@),
            n0 == old(node_vec)@.len(),
        decreases l - j,
    {
        proof {
            lemma_hier_of(kids@[j as int]);
        }
        if kids[j].parent.child_count != 0 {
            let p = kids[j].parent.duplicate();
            let ghost kb = hier_views(kids@);
            let ghost nvb = kv_views(node_vec@);
            match try_hierarchical_node(p, node_vec) {
                None => {
                    return None;
                },
                Some(z) => {
                    kids.push(z);
                    assert(hier_views(kids@) =~= kb.push(z@));
                },
            }
        }
        j += 1;
    }
    let r = HierarchicalNode { parent: required_node, children: kids };
    proof {
        lemma_hier_of(r);
    }
    Some(r)
}

/// Hangs the saved nodes of `node_vec` under `required_node` and takes them
/// out of `node_vec`, on inputs where every node met has keys and every rank
/// met has a rank below it.
pub fn get_hierarchical_node(required_node: KeyVersionNode, node_vec: &mut Vec<KeyVersionNode>) -> (r:
    HierarchicalNode)
    requires
        hier(required_node@, kv_views(old(node_vec)@)) is Some,
    ensures
        hier(required_node@, kv_views(old(node_vec)@)) == Some((r@, kv_views(final(node_vec)@))),
{
    match try_hierarchical_node(required_node, node_vec) {
        Some(h) => h,
        None => HierarchicalNode {
            parent: KeyVersionNode { items: Vec::new(), child_count: 0 },
            children: Vec::new(),
        },
    }
}

} // verus!
