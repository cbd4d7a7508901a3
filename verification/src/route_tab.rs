//! Route trees and their merging: a route to a target is a tree of next hops, each
//! branch carrying the smallest hop count (ttl) found below it.
use vstd::prelude::*;
use crate::bytes::{bytes_equal, copy_bytes};
use crate::peer_text::{peer_id_base58, peer_id_text};
use vstd::string::StringExecFns;
use crate::clock::{unix_now_secs, ClockError};
use crate::lru_cache::{
    bounded, put_result, route_cache_cap, route_cache_entries, route_cache_new, route_cache_peek,
    route_cache_pop, route_cache_put, RouteCache,
};
use std::collections::HashMap;
use vstd::std_specs::iter::IteratorSpec;

verus! {

/// Largest number of branches kept under one next hop.
pub const MAX_ITEM_EACH_NEXT: usize = 3;

/// The ttl of a branch set that holds no path.
pub const INVALID_TTL: u8 = 255;

/// Mathematical model of a [`RoutePathItem`].
pub struct PathView {
    pub next: Seq<u8>,
    pub pathes: Option<Seq<PathView>>,
    pub min_ttl: u8,
    pub sign: Option<Seq<u8>>,
}

/// One hop of a route: the next peer and the branches that continue from it.
#[derive(Debug, PartialEq, Eq)]
pub struct RoutePathItem {
    pub next: Vec<u8>,
    pub pathes: Option<Vec<RoutePathItem>>,
    pub min_ttl: u8,
    pub sign: Option<Vec<u8>>,
}

/// Mathematical model of a [`RouteItem`].
pub struct RouteItemView {
    pub min_ttl: u8,
    pub pathes: Seq<PathView>,
    pub sign: Seq<u8>,
}

/// The branches found under one next hop, with the smallest ttl among them.
#[derive(Debug, PartialEq, Eq)]
pub struct RouteItem {
    pub min_ttl: u8,
    pub pathes: Vec<RoutePathItem>,
    pub sign: Vec<u8>,
}

/// Mathematical model of a [`RouteItemsWithTime`].
pub struct RouteItemsWithTimeView {
    pub create_time: u64,
    pub item: RouteItemView,
}

/// A [`RouteItem`] together with the time it was created at.
#[derive(Debug, PartialEq, Eq)]
pub struct RouteItemsWithTime {
    pub create_time: u64,
    pub item: RouteItem,
}

/// The model of a path item.
pub open spec fn path_view(p: RoutePathItem) -> PathView
    decreases p,
{
    PathView {
        next: p.next@,
        pathes: match p.pathes {
            Some(ps) => Some(
                Seq::new(
                    ps@.len(),
                    |i: int|
                        if 0 <= i < ps@.len() {
                            path_view(ps@[i])
                        } else {
                            arbitrary()
                        },
                ),
            ),
            None => None,
        },
        min_ttl: p.min_ttl,
        sign: match p.sign {
            Some(s) => Some(s@),
            None => None,
        },
    }
}

/// The models of a vector of path items.
pub open spec fn paths_view(ps: Vec<RoutePathItem>) -> Seq<PathView> {
    Seq::new(ps@.len(), |i: int| path_view(ps@[i]))
}

impl View for RoutePathItem {
    type V = PathView;

    open spec fn view(&self) -> PathView {
        path_view(*self)
    }
}

impl View for RouteItem {
    type V = RouteItemView;

    open spec fn view(&self) -> RouteItemView {
        RouteItemView { min_ttl: self.min_ttl, pathes: paths_view(self.pathes), sign: self.sign@ }
    }
}

impl View for RouteItemsWithTime {
    type V = RouteItemsWithTimeView;

    open spec fn view(&self) -> RouteItemsWithTimeView {
        RouteItemsWithTimeView { create_time: self.create_time, item: self.item@ }
    }
}

pub open spec fn min_u8(a: u8, b: u8) -> u8 {
    if a < b {
        a
    } else {
        b
    }
}

/// The smallest `min_ttl` of a sequence of paths, `INVALID_TTL` when it is empty.
pub open spec fn seq_min_ttl(ps: Seq<PathView>) -> u8
    decreases ps.len(),
{
    if ps.len() == 0 {
        INVALID_TTL
    } else {
        min_u8(seq_min_ttl(ps.drop_last()), ps.last().min_ttl)
    }
}

/// A path tree with every `min_ttl` recomputed bottom-up: 1 at a leaf, the smallest
/// `min_ttl` of the branches at an inner node.
pub open spec fn with_min_ttl(p: PathView) -> PathView
    decreases p,
{
    match p.pathes {
        None => PathView { min_ttl: 1, ..p },
        Some(ps) => {
            let nps = Seq::new(
                ps.len(),
                |i: int|
                    if 0 <= i < ps.len() {
                        with_min_ttl(ps[i])
                    } else {
                        arbitrary()
                    },
            );
            PathView { pathes: Some(nps), min_ttl: seq_min_ttl(nps), ..p }
        },
    }
}

/// `mine` covers `other`: the same next hop, and every branch of `other` is covered
/// by some branch of `mine` (a leaf only by a leaf).
pub open spec fn path_contains(mine: PathView, other: PathView) -> bool
    decreases other, 0int, 0int,
{
    if mine.next != other.next {
        false
    } else {
        match other.pathes {
            Some(ops) => match mine.pathes {
                Some(mps) => all_covered(mps, ops, ops.len() as int),
                None => ops.len() == 0,
            },
            None => mine.pathes is None,
        }
    }
}

/// Some path among `mine[0..k]` covers `q`.
pub open spec fn some_covers(mine: Seq<PathView>, q: PathView, k: int) -> bool
    decreases q, 1int, k,
{
    if k <= 0 || k > mine.len() {
        false
    } else {
        some_covers(mine, q, k - 1) || path_contains(mine[k - 1], q)
    }
}

/// Each path among `qs[0..k]` is covered by some path of `mine`.
pub open spec fn all_covered(mine: Seq<PathView>, qs: Seq<PathView>, k: int) -> bool
    decreases qs, 2int, k,
{
    if k <= 0 || k > qs.len() {
        true
    } else {
        all_covered(mine, qs, k - 1) && some_covers(mine, qs[k - 1], mine.len() as int)
    }
}


/// A copy of a path tree.
fn clone_path(p: &RoutePathItem) -> (r: RoutePathItem)
    ensures
        r@ == p@,
    decreases p,
{
    let pathes = match &p.pathes {
        Some(ps) => {
            let mut out: Vec<RoutePathItem> = Vec::new();
            let mut i: usize = 0;
            while i < ps.len()
                invariant
                    p.pathes == Some(*ps),
                    0 <= i <= ps@.len(),
                    out@.len() == i,
                    forall|j: int| 0 <= j < i ==> (#[trigger] out@[j])@ == ps@[j]@,
                decreases ps@.len() - i,
            {
                proof {
                    vstd::std_specs::vec::axiom_vec_index_decreases(*ps, i as int);
                    assert(decreases_to!(*p => p.pathes));
                    assert(decreases_to!(p.pathes => p.pathes->0));
                    assert(decreases_to!(*ps => ps[i as int]));
                    assert(decreases_to!(*p => ps[i as int]));
                }
                let c = clone_path(&ps[i]);
                out.push(c);
                i = i + 1;
            }
            proof {
                assert(paths_view(out) =~= paths_view(*ps));
            }
            Some(out)
        },
        None => None,
    };
    let sign = match &p.sign {
        Some(s) => Some(copy_bytes(s)),
        None => None,
    };
    let r = RoutePathItem { next: copy_bytes(&p.next), pathes, min_ttl: p.min_ttl, sign };
    proof {
        if p.pathes is Some {
            assert(r@.pathes->0 =~= p@.pathes->0);
        }
    }
    r
}

/// A placeholder path item, used while a child is taken out of its parent.
fn empty_path() -> (r: RoutePathItem)
    ensures
        r@ == (PathView { next: Seq::empty(), pathes: None, min_ttl: 0, sign: None }),
{
    let r = RoutePathItem { next: Vec::new(), pathes: None, min_ttl: 0, sign: None };
    assert(r@.next =~= Seq::<u8>::empty());
    r
}

/// The smallest `min_ttl` among `ps`, `INVALID_TTL` when there is none.
pub(crate) fn min_ttl_of(ps: &Vec<RoutePathItem>) -> (m: u8)
    ensures
        m == seq_min_ttl(paths_view(*ps)),
{
    let ghost v = paths_view(*ps);
    let mut min_ttl: u8 = INVALID_TTL;
    let mut k: usize = 0;
    assert(v.take(0) =~= Seq::<PathView>::empty());
    while k < ps.len()
        invariant
            v == paths_view(*ps),
            0 <= k <= ps@.len(),
            min_ttl == seq_min_ttl(v.take(k as int)),
        decreases ps@.len() - k,
    {
        proof {
            assert(v.take(k + 1).drop_last() =~= v.take(k as int));
            assert(v.take(k + 1).last() == v[k as int]);
        }
        if min_ttl > ps[k].min_ttl {
            min_ttl = ps[k].min_ttl;
        }
        k = k + 1;
    }
    assert(v.take(ps@.len() as int) =~= v);
    min_ttl
}

impl RoutePathItem {
    /// The smallest hop count recorded for this hop.
    #[allow(non_snake_case)]
    pub fn getMinTTL(&self) -> (t: u8)
        ensures
            t == self@.min_ttl,
    {
        self.min_ttl
    }

    /// Recomputes `min_ttl` throughout the tree: 1 at a leaf, the smallest `min_ttl`
    /// of the branches at an inner node (`INVALID_TTL` for an empty branch list).
    pub fn update_min_ttl(&mut self)
        ensures
            final(self)@ == with_min_ttl(old(self)@),
        decreases *old(self),
    {
        let mut min_ttl: u8 = INVALID_TTL;
        let mut taken: Option<Vec<RoutePathItem>> = None;
        std::mem::swap(&mut taken, &mut self.pathes);
        match taken {
            Some(mut pathes) => {
                let ghost orig = pathes;
                let mut i: usize = 0;
                while i < pathes.len()
                    invariant
                        old(self).pathes == Some(orig),
                        pathes@.len() == orig@.len(),
                        0 <= i <= pathes@.len(),
                        forall|j: int| 0 <= j < i ==> (#[trigger] pathes@[j])@ == with_min_ttl(orig@[j]@),
                        forall|j: int| i <= j < pathes@.len() ==> #[trigger] pathes@[j] == orig@[j],
                    decreases pathes@.len() - i,
                {
                    let mut child = empty_path();
                    std::mem::swap(&mut child, &mut pathes[i]);
                    proof {
                        vstd::std_specs::vec::axiom_vec_index_decreases(orig, i as int);
                        assert(decreases_to!(*old(self) => old(self).pathes));
                        assert(decreases_to!(old(self).pathes => old(self).pathes->0));
                        assert(decreases_to!(orig => orig[i as int]));
                        assert(decreases_to!(*old(self) => orig[i as int]));
                    }
                    child.update_min_ttl();
                    pathes.set(i, child);
                    i = i + 1;
                }
                min_ttl = min_ttl_of(&pathes);
                self.pathes = Some(pathes);
                proof {
                    let ops = old(self)@.pathes->0;
                    let nps = Seq::new(
                        ops.len(),
                        |i: int|
                            if 0 <= i < ops.len() {
                                with_min_ttl(ops[i])
                            } else {
                                arbitrary()
                            },
                    );
                    assert(paths_view(pathes) =~= nps);
                    assert(self@.pathes->0 =~= nps);
                    assert(with_min_ttl(old(self)@).pathes == Some(nps));
                    assert(min_ttl == seq_min_ttl(nps));
                }
            },
            None => {
                min_ttl = 1;
            },
        }
        self.min_ttl = min_ttl;
        proof {
            assert(self@.next == old(self)@.next);
            assert(self@.sign == old(self)@.sign);
        }
    }
}

impl RoutePathItem {
    /// Whether this hop covers `path_item`: the same next hop, and each branch of
    /// `path_item` covered by one of ours (a leaf only by a leaf).
    pub fn contains(&self, path_item: &RoutePathItem) -> (r: bool)
        ensures
            r == path_contains(self@, path_item@),
        decreases path_item, 0int,
    {
        if !crate::bytes::bytes_equal(&self.next, &path_item.next) {
            return false;
        }
        match &path_item.pathes {
            Some(incoming) => {
                let ghost ops = path_item@.pathes->0;
                let mut all = true;
                let mut j: usize = 0;
                while j < incoming.len()
                    invariant
                        path_item.pathes == Some(*incoming),
                        ops == paths_view(*incoming),
                        self@.next == path_item@.next,
                        0 <= j <= incoming@.len(),
                        all == match self@.pathes {
                            Some(mps) => all_covered(mps, ops, j as int),
                            None => j == 0,
                        },
                    decreases incoming@.len() - j,
                {
                    proof {
                        vstd::std_specs::vec::axiom_vec_index_decreases(*incoming, j as int);
                        assert(decreases_to!(*path_item => path_item.pathes));
                        assert(decreases_to!(path_item.pathes => path_item.pathes->0));
                        assert(decreases_to!(*incoming => incoming[j as int]));
                        assert(decreases_to!(*path_item => incoming[j as int]));
                    }
                    let found = self.covers_branch(&incoming[j]);
                    all = all && found;
                    j = j + 1;
                }
                all
            },
            None => self.pathes.is_none(),
        }
    }

    /// Whether one of our branches covers `one_path`.
    fn covers_branch(&self, one_path: &RoutePathItem) -> (found: bool)
        ensures
            found == match self@.pathes {
                Some(mps) => some_covers(mps, one_path@, mps.len() as int),
                None => false,
            },
        decreases one_path, 1int,
    {
        match &self.pathes {
            Some(my_path) => {
                let ghost mps = self@.pathes->0;
                let mut i: usize = 0;
                let mut found = false;
                while i < my_path.len() && !found
                    invariant
                        self.pathes == Some(*my_path),
                        mps == paths_view(*my_path),
                        0 <= i <= my_path@.len(),
                        found == some_covers(mps, one_path@, i as int),
                    decreases my_path@.len() - i,
                {
                    found = my_path[i].contains(one_path);
                    proof {
                        assert(some_covers(mps, one_path@, i as int) == false);
                    }
                    i = i + 1;
                }
                proof {
                    if found {
                        lemma_some_covers_mono(mps, one_path@, i as int, mps.len() as int);
                    }
                }
                found
            },
            None => false,
        }
    }
}

proof fn lemma_some_covers_mono(mine: Seq<PathView>, q: PathView, k: int, n: int)
    requires
        0 <= k <= n <= mine.len(),
        some_covers(mine, q, k),
    ensures
        some_covers(mine, q, n),
    decreases n - k,
{
    if k < n {
        lemma_some_covers_mono(mine, q, k, n - 1);
    }
}

/// The text of a path tree: each hop as `{"next":"<peer id>","pathes":[...]}`, the
/// branches each followed by a comma, a leaf's branches written `"None"`; none when
/// some hop is no valid peer id.
pub open spec fn printed(p: PathView) -> Option<Seq<char>>
    decreases p, 0int, 0int,
{
    match peer_id_base58(p.next) {
        None => None,
        Some(id) => {
            let head = "{\"next\":\""@ + id + "\","@;
            match p.pathes {
                None => Some(head + "\"pathes\":\"None\""@ + "}"@),
                Some(ps) => match printed_branches(ps, ps.len() as int) {
                    None => None,
                    Some(body) => Some(head + "\"pathes\":["@ + body + "]"@ + "}"@),
                },
            }
        },
    }
}

/// The texts of `ps[0..k]`, each followed by a comma; none when one of them has none.
pub open spec fn printed_branches(ps: Seq<PathView>, k: int) -> Option<Seq<char>>
    decreases ps, 1int, k,
{
    if k <= 0 || k > ps.len() {
        Some(Seq::empty())
    } else {
        match printed_branches(ps, k - 1) {
            None => None,
            Some(a) => match printed(ps[k - 1]) {
                None => None,
                Some(b) => Some(a + b + ","@),
            },
        }
    }
}

proof fn lemma_printed_branches_prefix(ps: Seq<PathView>, j: int, k: int)
    requires
        0 <= j < k <= ps.len(),
        printed_branches(ps, k) is Some,
    ensures
        printed(ps[j]) is Some,
        printed_branches(ps, j) is Some,
    decreases k - j,
{
    if j < k - 1 {
        lemma_printed_branches_prefix(ps, j, k - 1);
    }
}

impl RoutePathItem {
    /// The text of this path tree (see [`printed`]); every hop must be a valid peer id.
    pub fn print(&self) -> (r: String)
        requires
            printed(self@) is Some,
        ensures
            printed(self@) == Some(r@),
        decreases self, 0int,
    {
        let id = peer_id_text(&self.next).unwrap();
        let mut string = String::from_str("{\"next\":\"");
        string.append(id.as_str());
        string.append("\",");
        let ghost head = string@;
        match &self.pathes {
            Some(pathes) => {
                let ghost ps = self@.pathes->0;
                string.append("\"pathes\":[");
                let ghost open = string@;
                let mut i: usize = 0;
                while i < pathes.len()
                    invariant
                        self.pathes == Some(*pathes),
                        ps == paths_view(*pathes),
                        printed_branches(ps, ps.len() as int) is Some,
                        0 <= i <= ps.len(),
                        printed_branches(ps, i as int) is Some,
                        string@ == open + printed_branches(ps, i as int)->0,
                    decreases ps.len() - i,
                {
                    proof {
                        lemma_printed_branches_prefix(ps, i as int, ps.len() as int);
                        if i + 1 < ps.len() {
                            lemma_printed_branches_prefix(ps, i + 1, ps.len() as int);
                        }
                        vstd::std_specs::vec::axiom_vec_index_decreases(*pathes, i as int);
                        assert(decreases_to!(*self => self.pathes));
                        assert(decreases_to!(self.pathes => self.pathes->0));
                        assert(decreases_to!(*self => pathes[i as int]));
                    }
                    let b = pathes[i].print();
                    string.append(b.as_str());
                    string.append(",");
                    proof {
                        assert(printed_branches(ps, i + 1) == Some(printed_branches(ps, i as int)->0 + b@ + ","@));
                        assert(string@ =~= open + printed_branches(ps, i + 1)->0);
                    }
                    i = i + 1;
                }
                string.append("]");
            },
            None => {
                string.append("\"pathes\":\"None\"");
            },
        }
        string.append("}");
        proof {
            assert(string@ =~= printed(self@)->0);
        }
        string
    }

    /// Whether every hop of this path tree is a valid peer id.
    fn ids_valid(&self) -> (r: bool)
        ensures
            r == (printed(self@) is Some),
        decreases self, 0int,
    {
        if peer_id_text(&self.next).is_none() {
            return false;
        }
        match &self.pathes {
            Some(pathes) => {
                let ghost ps = self@.pathes->0;
                let mut i: usize = 0;
                while i < pathes.len()
                    invariant
                        self.pathes == Some(*pathes),
                        ps == paths_view(*pathes),
                        self@.pathes == Some(ps),
                        peer_id_base58(self@.next) is Some,
                        0 <= i <= ps.len(),
                        printed_branches(ps, i as int) is Some,
                    decreases ps.len() - i,
                {
                    proof {
                        vstd::std_specs::vec::axiom_vec_index_decreases(*pathes, i as int);
                        assert(decreases_to!(*self => self.pathes));
                        assert(decreases_to!(self.pathes => self.pathes->0));
                        assert(decreases_to!(*self => pathes[i as int]));
                    }
                    if !pathes[i].ids_valid() {
                        proof {
                            if printed(self@) is Some {
                                assert(printed_branches(ps, ps.len() as int) is Some);
                                lemma_printed_branches_prefix(ps, i as int, ps.len() as int);
                            }
                        }
                        return false;
                    }
                    i = i + 1;
                }
                true
            },
            None => true,
        }
    }

    /// The text of this path tree (see [`printed`]), or none when some hop is no
    /// valid peer id.
    pub fn try_print(&self) -> (r: Option<String>)
        ensures
            match r {
                Some(s) => printed(self@) == Some(s@),
                None => printed(self@) is None,
            },
    {
        if self.ids_valid() {
            Some(self.print())
        } else {
            None
        }
    }
}

/// The model of a hop's branches is the model of its branch vector.
pub proof fn lemma_path_view_branches(p: RoutePathItem)
    ensures
        p@.next == p.next@,
        p@.min_ttl == p.min_ttl,
        p@.pathes == match p.pathes {
            Some(ps) => Some(paths_view(ps)),
            None => None,
        },
{
    match p.pathes {
        Some(ps) => {
            assert(p@.pathes->0 =~= paths_view(ps));
        },
        None => {},
    }
}

impl Clone for RoutePathItem {
    fn clone(&self) -> (r: Self)
        ensures
            r@ == self@,
    {
        clone_path(self)
    }
}


/// Copies of a list of path trees.
pub(crate) fn clone_paths(ps: &Vec<RoutePathItem>) -> (r: Vec<RoutePathItem>)
    ensures
        paths_view(r) == paths_view(*ps),
{
    let mut out: Vec<RoutePathItem> = Vec::new();
    let mut i: usize = 0;
    while i < ps.len()
        invariant
            0 <= i <= ps@.len(),
            out@.len() == i,
            forall|j: int| 0 <= j < i ==> (#[trigger] out@[j])@ == ps@[j]@,
        decreases ps@.len() - i,
    {
        out.push(ps[i].clone());
        i = i + 1;
    }
    assert(paths_view(out) =~= paths_view(*ps));
    out
}

/// Every branch of `other` is covered by one of the branches of `mine`.
pub open spec fn item_contains(mine: RouteItemView, other: RouteItemView) -> bool {
    all_covered(mine.pathes, other.pathes, other.pathes.len() as int)
}

/// `mine` after merging `other` into it: the branches of `other` are appended unless
/// all of them are already covered, and the smaller `min_ttl` is kept.
pub open spec fn merged_item(mine: RouteItemView, other: RouteItemView) -> RouteItemView {
    RouteItemView {
        min_ttl: min_u8(mine.min_ttl, other.min_ttl),
        pathes: if item_contains(mine, other) {
            mine.pathes
        } else {
            mine.pathes + other.pathes
        },
        sign: mine.sign,
    }
}

impl Clone for RouteItem {
    fn clone(&self) -> (r: Self)
        ensures
            r@ == self@,
    {
        RouteItem { min_ttl: self.min_ttl, pathes: clone_paths(&self.pathes), sign: copy_bytes(&self.sign) }
    }
}

impl Clone for RouteItemsWithTime {
    fn clone(&self) -> (r: Self)
        ensures
            r@ == self@,
    {
        RouteItemsWithTime { create_time: self.create_time, item: self.item.clone() }
    }
}

impl RouteItem {
    /// Sets `min_ttl` to one more than the smallest `min_ttl` of the branches.
    #[allow(non_snake_case)]
    pub fn buildMinTTL(&mut self)
        requires
            seq_min_ttl(old(self)@.pathes) < INVALID_TTL,
        ensures
            final(self)@ == (RouteItemView {
                min_ttl: (seq_min_ttl(old(self)@.pathes) + 1) as u8,
                ..old(self)@
            }),
    {
        let min_ttl = min_ttl_of(&self.pathes);
        self.min_ttl = min_ttl + 1;
    }

    /// Whether each branch of `route_item` is covered by one of our branches.
    pub fn contains(&self, route_item: &RouteItem) -> (r: bool)
        ensures
            r == item_contains(self@, route_item@),
    {
        let ghost mps = self@.pathes;
        let ghost ops = route_item@.pathes;
        let mut not_contained = false;
        let mut j: usize = 0;
        while j < route_item.pathes.len()
            invariant
                mps == self@.pathes,
                ops == route_item@.pathes,
                0 <= j <= ops.len(),
                not_contained == !all_covered(mps, ops, j as int),
            decreases ops.len() - j,
        {
            if !not_contained {
                let mut branch_contained = false;
                let mut i: usize = 0;
                while i < self.pathes.len() && !branch_contained
                    invariant
                        mps == self@.pathes,
                        ops == route_item@.pathes,
                        0 <= j < ops.len(),
                        0 <= i <= mps.len(),
                        branch_contained == some_covers(mps, ops[j as int], i as int),
                    decreases mps.len() - i,
                {
                    branch_contained = self.pathes[i].contains(&route_item.pathes[j]);
                    i = i + 1;
                }
                proof {
                    if branch_contained {
                        lemma_some_covers_mono(mps, ops[j as int], i as int, mps.len() as int);
                    }
                }
                if !branch_contained {
                    not_contained = true;
                }
            } else {
                proof {
                    lemma_all_covered_prefix(mps, ops, j as int, j + 1);
                }
            }
            j = j + 1;
        }
        !not_contained
    }

    /// Merges an entry for the same next hop: its branches are appended unless ours
    /// already cover them all, and the smaller `min_ttl` is kept.
    pub fn merge_route_item(&mut self, route_item: &RouteItem)
        ensures
            final(self)@ == merged_item(old(self)@, route_item@),
    {
        if !self.contains(route_item) {
            let mut extra = clone_paths(&route_item.pathes);
            let ghost before = self.pathes;
            self.pathes.append(&mut extra);
            proof {
                assert(paths_view(self.pathes) =~= paths_view(before) + route_item@.pathes);
            }
        }
        if self.min_ttl > route_item.min_ttl {
            self.min_ttl = route_item.min_ttl;
        }
    }
}

proof fn lemma_all_covered_prefix(mine: Seq<PathView>, qs: Seq<PathView>, k: int, n: int)
    requires
        0 <= k <= n <= qs.len(),
        !all_covered(mine, qs, k),
    ensures
        !all_covered(mine, qs, n),
    decreases n - k,
{
    if k < n {
        lemma_all_covered_prefix(mine, qs, k, n - 1);
    }
}


/// A branch of a new route is covered by one of the branches held so far.
pub open spec fn covered(mine: Seq<PathView>, q: PathView) -> bool {
    some_covers(mine, q, mine.len() as int)
}

/// The branches among `ps[0..k]` not covered by `mine`, in order.
pub open spec fn uncovered(mine: Seq<PathView>, ps: Seq<PathView>, k: int) -> Seq<PathView>
    decreases k,
{
    if k <= 0 {
        Seq::empty()
    } else if covered(mine, ps[k - 1]) {
        uncovered(mine, ps, k - 1)
    } else {
        uncovered(mine, ps, k - 1).push(ps[k - 1])
    }
}

/// Order on (ttl, position) keys: by ttl, then by position.
pub open spec fn key_le(a: (u8, usize), b: (u8, usize)) -> bool {
    a.0 < b.0 || (a.0 == b.0 && a.1 <= b.1)
}

/// `s` with `x` placed before its first element that is not below `x`.
pub open spec fn insert_sorted(s: Seq<(u8, usize)>, x: (u8, usize)) -> Seq<(u8, usize)>
    decreases s.len(),
{
    if s.len() == 0 {
        seq![x]
    } else if key_le(x, s[0]) {
        seq![x] + s
    } else {
        seq![s[0]] + insert_sorted(s.drop_first(), x)
    }
}

/// The keys of `s` in ascending order.
pub open spec fn sort_keys(s: Seq<(u8, usize)>) -> Seq<(u8, usize)>
    decreases s.len(),
{
    if s.len() == 0 {
        Seq::empty()
    } else {
        insert_sorted(sort_keys(s.drop_last()), s.last())
    }
}

/// The (ttl, position) keys of a list of branches.
pub open spec fn ttl_keys(ps: Seq<PathView>) -> Seq<(u8, usize)> {
    Seq::new(ps.len(), |i: int| (ps[i].min_ttl, i as usize))
}

/// The position of the least branch of `ps` by (ttl, position).
pub open spec fn least_branch(ps: Seq<PathView>) -> int {
    sort_keys(ttl_keys(ps))[0].1 as int
}

/// The three branches kept when the uncovered new branches `u` do not fit beside the
/// held branches `mine`: the new branch of least ttl, then the two branches of least
/// ttl among the held ones and the other new ones (by ttl, then by position, held
/// ones first).
pub open spec fn replaced_paths(mine: Seq<PathView>, u: Seq<PathView>) -> Seq<PathView> {
    let b = least_branch(u);
    let rest = mine + u.remove(b);
    let ks = sort_keys(ttl_keys(rest));
    seq![u[b], rest[ks[0].1 as int], rest[ks[1].1 as int]]
}

/// The branches held after merging the branches of `new_items` into `mine`: the
/// branches covered by ours are ignored; the others are appended when they fit within
/// `MAX_ITEM_EACH_NEXT`, otherwise the branches kept are those of [`replaced_paths`].
pub open spec fn merged_paths(mine: Seq<PathView>, new_items: PathView) -> Seq<PathView> {
    match new_items.pathes {
        None => mine,
        Some(ps) => {
            let u = uncovered(mine, ps, ps.len() as int);
            if u.len() == 0 {
                mine
            } else if u.len() + mine.len() <= MAX_ITEM_EACH_NEXT {
                mine + u
            } else {
                replaced_paths(mine, u)
            }
        },
    }
}

proof fn lemma_insert_sorted_at(s: Seq<(u8, usize)>, x: (u8, usize), p: int)
    requires
        0 <= p <= s.len(),
        forall|q: int| 0 <= q < p ==> !key_le(x, #[trigger] s[q]),
        p < s.len() ==> key_le(x, s[p]),
    ensures
        insert_sorted(s, x) == s.insert(p, x),
    decreases s.len(),
{
    if s.len() == 0 {
        assert(s.insert(p, x) =~= seq![x]);
    } else if p == 0 {
        assert(s.insert(p, x) =~= seq![x] + s);
    } else {
        let t = s.drop_first();
        assert forall|q: int| 0 <= q < p - 1 implies !key_le(x, #[trigger] t[q]) by {
            assert(t[q] == s[q + 1]);
        }
        if p - 1 < t.len() {
            assert(t[p - 1] == s[p]);
        }
        lemma_insert_sorted_at(t, x, p - 1);
        assert(seq![s[0]] + t.insert(p - 1, x) =~= s.insert(p, x));
    }
}

proof fn lemma_insert_sorted_elems(s: Seq<(u8, usize)>, x: (u8, usize))
    ensures
        insert_sorted(s, x).len() == s.len() + 1,
        forall|q: int|
            0 <= q < s.len() + 1 ==> #[trigger] insert_sorted(s, x)[q] == x || s.contains(
                insert_sorted(s, x)[q],
            ),
    decreases s.len(),
{
    if s.len() > 0 && !key_le(x, s[0]) {
        let t = s.drop_first();
        lemma_insert_sorted_elems(t, x);
        let r = insert_sorted(s, x);
        assert forall|q: int| 0 <= q < s.len() + 1 implies #[trigger] r[q] == x || s.contains(r[q]) by {
            if q == 0 {
                assert(r[q] == s[0]);
            } else {
                assert(r[q] == insert_sorted(t, x)[q - 1]);
                if insert_sorted(t, x)[q - 1] != x {
                    let w = choose|w: int| 0 <= w < t.len() && t[w] == insert_sorted(t, x)[q - 1];
                    assert(s[w + 1] == t[w]);
                }
            }
        }
    } else if s.len() > 0 {
        let r = insert_sorted(s, x);
        assert forall|q: int| 0 <= q < s.len() + 1 implies #[trigger] r[q] == x || s.contains(r[q]) by {
            if q > 0 {
                assert(r[q] == s[q - 1]);
            }
        }
    }
}

proof fn lemma_sort_keys_elems(s: Seq<(u8, usize)>)
    ensures
        sort_keys(s).len() == s.len(),
        forall|q: int| 0 <= q < s.len() ==> s.contains(#[trigger] sort_keys(s)[q]),
    decreases s.len(),
{
    if s.len() > 0 {
        let t = s.drop_last();
        lemma_sort_keys_elems(t);
        lemma_insert_sorted_elems(sort_keys(t), s.last());
        assert forall|q: int| 0 <= q < s.len() implies s.contains(#[trigger] sort_keys(s)[q]) by {
            let e = sort_keys(s)[q];
            if e == s.last() {
                assert(s[s.len() - 1] == e);
            } else {
                assert(sort_keys(t).contains(e));
                let w = choose|w: int| 0 <= w < sort_keys(t).len() && sort_keys(t)[w] == e;
                assert(t.contains(sort_keys(t)[w]));
                let u = choose|u: int| 0 <= u < t.len() && t[u] == e;
                assert(s[u] == e);
            }
        }
    }
}

proof fn lemma_sorted_keys_in_range(ks: Seq<(u8, usize)>, n: int)
    requires
        forall|q: int| 0 <= q < ks.len() ==> (#[trigger] ks[q]).1 < n,
    ensures
        forall|q: int| 0 <= q < ks.len() ==> (#[trigger] sort_keys(ks)[q]).1 < n,
{
    lemma_sort_keys_elems(ks);
    assert forall|q: int| 0 <= q < ks.len() implies (#[trigger] sort_keys(ks)[q]).1 < n by {
        let w = choose|w: int| 0 <= w < ks.len() && ks[w] == sort_keys(ks)[q];
        assert(ks[w].1 < n);
    }
}

/// The keys in ascending (ttl, position) order.
fn sort_ttl_keys(v: &Vec<(u8, usize)>) -> (r: Vec<(u8, usize)>)
    ensures
        r@ == sort_keys(v@),
{
    let mut r: Vec<(u8, usize)> = Vec::new();
    let mut i: usize = 0;
    assert(v@.take(0) =~= Seq::<(u8, usize)>::empty());
    while i < v.len()
        invariant
            0 <= i <= v@.len(),
            r@ == sort_keys(v@.take(i as int)),
        decreases v@.len() - i,
    {
        let x = v[i];
        let mut p: usize = 0;
        while p < r.len() && !(x.0 < r[p].0 || (x.0 == r[p].0 && x.1 <= r[p].1))
            invariant
                0 <= p <= r@.len(),
                forall|q: int| 0 <= q < p ==> !key_le(x, #[trigger] r@[q]),
            decreases r@.len() - p,
        {
            p = p + 1;
        }
        proof {
            lemma_insert_sorted_at(r@, x, p as int);
            assert(v@.take(i + 1).drop_last() =~= v@.take(i as int));
            assert(v@.take(i + 1).last() == x);
        }
        r.insert(p, x);
        i = i + 1;
    }
    assert(v@.take(v@.len() as int) =~= v@);
    r
}

impl RouteItemsWithTime {
    /// Whether one of our branches covers `val`.
    fn covers(&self, val: &RoutePathItem) -> (r: bool)
        ensures
            r == covered(self@.item.pathes, val@),
    {
        let ghost mine = self@.item.pathes;
        let mut item_contained = false;
        let mut i: usize = 0;
        while i < self.item.pathes.len() && !item_contained
            invariant
                mine == self@.item.pathes,
                0 <= i <= mine.len(),
                item_contained == some_covers(mine, val@, i as int),
            decreases mine.len() - i,
        {
            item_contained = self.item.pathes[i].contains(val);
            i = i + 1;
        }
        proof {
            if item_contained {
                lemma_some_covers_mono(mine, val@, i as int, mine.len() as int);
            }
        }
        item_contained
    }

    /// Merges the branches of a route received for the same time into ours: branches
    /// covered by ours are ignored; the others are appended when they all fit within
    /// `MAX_ITEM_EACH_NEXT`; else the new branch of least ttl is kept, with the two
    /// branches of least ttl among ours and the other new ones.
    pub fn merge(&mut self, new_items: &RoutePathItem)
        ensures
            final(self)@ == (RouteItemsWithTimeView {
                item: RouteItemView {
                    pathes: merged_paths(old(self)@.item.pathes, new_items@),
                    ..old(self)@.item
                },
                ..old(self)@
            }),
    {
        match &new_items.pathes {
            Some(pathes) => {
                let ghost mine = self@.item.pathes;
                let ghost ps = new_items@.pathes->0;
                let mut unc: Vec<RoutePathItem> = Vec::new();
                let mut i: usize = 0;
                while i < pathes.len()
                    invariant
                        new_items.pathes == Some(*pathes),
                        ps == paths_view(*pathes),
                        mine == self@.item.pathes,
                        0 <= i <= ps.len(),
                        paths_view(unc) == uncovered(mine, ps, i as int),
                    decreases ps.len() - i,
                {
                    if !self.covers(&pathes[i]) {
                        let ghost before = unc;
                        unc.push(pathes[i].clone());
                        assert(paths_view(unc) =~= paths_view(before).push(ps[i as int]));
                    }
                    i = i + 1;
                }
                let ghost u = paths_view(unc);
                if unc.len() == 0 {
                    return;
                }
                let len = self.item.pathes.len();
                if len <= MAX_ITEM_EACH_NEXT && unc.len() <= MAX_ITEM_EACH_NEXT - len {
                    let mut j: usize = 0;
                    while j < unc.len()
                        invariant
                            u == paths_view(unc),
                            0 <= j <= u.len(),
                            paths_view(self.item.pathes) == mine + u.take(j as int),
                            self.item.min_ttl == old(self).item.min_ttl,
                            self.item.sign == old(self).item.sign,
                            self.create_time == old(self).create_time,
                        decreases u.len() - j,
                    {
                        let ghost before = self.item.pathes;
                        self.item.pathes.push(unc[j].clone());
                        proof {
                            assert(u.take(j + 1) =~= u.take(j as int).push(u[j as int]));
                            assert(paths_view(self.item.pathes) =~= paths_view(before).push(u[j as int]));
                        }
                        j = j + 1;
                    }
                    assert(u.take(u.len() as int) =~= u);
                } else {
                    let ku = ttl_keys_of(&unc);
                    let su = sort_ttl_keys(&ku);
                    proof {
                        lemma_sorted_keys_in_range(ttl_keys(u), u.len() as int);
                        lemma_sort_keys_elems(ttl_keys(u));
                    }
                    let b = su[0].1;
                    let mut rest = clone_paths(&self.item.pathes);
                    let mut k: usize = 0;
                    while k < unc.len()
                        invariant
                            u == paths_view(unc),
                            b < u.len(),
                            0 <= k <= u.len(),
                            paths_view(rest) == mine + if k <= b {
                                u.subrange(0, k as int)
                            } else {
                                u.subrange(0, b as int) + u.subrange(b + 1, k as int)
                            },
                        decreases u.len() - k,
                    {
                        let ghost before = rest;
                        if k != b {
                            rest.push(unc[k].clone());
                            proof {
                                assert(paths_view(rest) =~= paths_view(before).push(u[k as int]));
                                if k < b {
                                    assert(u.subrange(0, k + 1) =~= u.subrange(0, k as int).push(u[k as int]));
                                } else {
                                    assert(u.subrange(b + 1, k + 1) =~= u.subrange(b + 1, k as int).push(u[k as int]));
                                }
                            }
                        } else {
                            assert(u.subrange(b + 1, k + 1) =~= Seq::<PathView>::empty());
                        }
                        k = k + 1;
                    }
                    let ghost rv = paths_view(rest);
                    proof {
                        assert(u.remove(b as int) =~= u.subrange(0, b as int) + u.subrange(b + 1, u.len() as int));
                        assert(rv == mine + u.remove(b as int));
                        assert(rv.len() >= 3);
                    }
                    let kr = ttl_keys_of(&rest);
                    let sr = sort_ttl_keys(&kr);
                    proof {
                        lemma_sorted_keys_in_range(ttl_keys(rv), rv.len() as int);
                        lemma_sort_keys_elems(ttl_keys(rv));
                    }
                    let i0 = sr[0].1;
                    let i1 = sr[1].1;
                    let mut kept: Vec<RoutePathItem> = Vec::new();
                    kept.push(unc[b].clone());
                    kept.push(rest[i0].clone());
                    kept.push(rest[i1].clone());
                    proof {
                        assert(paths_view(kept) =~= replaced_paths(mine, u));
                    }
                    self.item.pathes = kept;
                }
            },
            None => {},
        }
    }
}

/// The (ttl, position) keys of a list of branches.
fn ttl_keys_of(v: &Vec<RoutePathItem>) -> (r: Vec<(u8, usize)>)
    ensures
        r@ == ttl_keys(paths_view(*v)),
{
    let ghost pv = paths_view(*v);
    let mut r: Vec<(u8, usize)> = Vec::new();
    let mut k: usize = 0;
    while k < v.len()
        invariant
            pv == paths_view(*v),
            0 <= k <= pv.len(),
            r@ == ttl_keys(pv).take(k as int),
        decreases pv.len() - k,
    {
        r.push((v[k].getMinTTL(), k));
        k = k + 1;
        assert(r@ =~= ttl_keys(pv).take(k as int));
    }
    assert(ttl_keys(pv).take(pv.len() as int) =~= ttl_keys(pv));
    r
}


/// Route items of one next hop keyed by their creation time.
pub type RouteItemMapByTime = HashMap<u64, RouteItem>;

/// The model of a time-keyed map of route items.
pub open spec fn time_map_view(m: RouteItemMapByTime) -> Map<u64, RouteItemView> {
    m@.map_values(|r: RouteItem| r@)
}

/// The models of a vector of timed route items.
pub open spec fn times_view(v: Vec<RouteItemsWithTime>) -> Seq<RouteItemsWithTimeView> {
    Seq::new(v@.len(), |i: int| v@[i]@)
}

/// The map built by inserting the timed items in order (a later item with the same
/// time replaces an earlier one).
pub open spec fn times_to_map(s: Seq<RouteItemsWithTimeView>) -> Map<u64, RouteItemView>
    decreases s.len(),
{
    if s.len() == 0 {
        Map::empty()
    } else {
        times_to_map(s.drop_last()).insert(s.last().create_time, s.last().item)
    }
}

/// No two timed items share a creation time.
pub open spec fn distinct_times(s: Seq<RouteItemsWithTimeView>) -> bool {
    forall|i: int, j: int|
        0 <= i < s.len() && 0 <= j < s.len() && i != j ==> #[trigger] s[i].create_time
            != #[trigger] s[j].create_time
}

pub(crate) proof fn lemma_times_to_map_distinct(s: Seq<RouteItemsWithTimeView>)
    requires
        distinct_times(s),
    ensures
        forall|j: int|
            0 <= j < s.len() ==> #[trigger] times_to_map(s).contains_key(s[j].create_time)
                && times_to_map(s)[s[j].create_time] == s[j].item,
        forall|k: u64|
            #[trigger] times_to_map(s).contains_key(k) ==> exists|j: int|
                0 <= j < s.len() && s[j].create_time == k,
    decreases s.len(),
{
    if s.len() > 0 {
        let t = s.drop_last();
        assert forall|i: int, j: int|
            0 <= i < t.len() && 0 <= j < t.len() && i != j implies #[trigger] t[i].create_time
            != #[trigger] t[j].create_time by {
            assert(t[i] == s[i] && t[j] == s[j]);
        }
        lemma_times_to_map_distinct(t);
        assert forall|j: int| 0 <= j < s.len() implies #[trigger] times_to_map(s).contains_key(
            s[j].create_time,
        ) && times_to_map(s)[s[j].create_time] == s[j].item by {
            assert(times_to_map(s) == times_to_map(t).insert(s.last().create_time, s.last().item));
            if j < s.len() - 1 {
                assert(t[j] == s[j]);
                assert(times_to_map(t).contains_key(t[j].create_time));
                assert(s[j].create_time != s[s.len() - 1].create_time);
            }
        }
        assert forall|k: u64| #[trigger] times_to_map(s).contains_key(k) implies exists|j: int|
            0 <= j < s.len() && s[j].create_time == k by {
            if k != s.last().create_time {
                assert(times_to_map(t).contains_key(k));
                let j = choose|j: int| 0 <= j < t.len() && t[j].create_time == k;
                assert(s[j] == t[j]);
            } else {
                assert(s[s.len() - 1].create_time == k);
            }
        }
    }
}

/// The time-keyed map of a vector of timed items.
pub fn to_map(item_vec: &Vec<RouteItemsWithTime>) -> (r: RouteItemMapByTime)
    ensures
        time_map_view(r) == times_to_map(times_view(*item_vec)),
{
    broadcast use vstd::std_specs::hash::group_hash_axioms;
    let ghost sv = times_view(*item_vec);
    let mut result: RouteItemMapByTime = HashMap::new();
    let mut i: usize = 0;
    assert(time_map_view(result) =~= Map::empty());
    assert(sv.take(0) =~= Seq::<RouteItemsWithTimeView>::empty());
    while i < item_vec.len()
        invariant
            sv == times_view(*item_vec),
            0 <= i <= sv.len(),
            time_map_view(result) == times_to_map(sv.take(i as int)),
        decreases sv.len() - i,
    {
        let ghost before = result;
        let it = item_vec[i].item.clone();
        result.insert(item_vec[i].create_time, it);
        proof {
            assert(sv.take(i + 1).drop_last() =~= sv.take(i as int));
            assert(sv.take(i + 1).last() == sv[i as int]);
            assert(time_map_view(result) =~= time_map_view(before).insert(
                sv[i as int].create_time,
                sv[i as int].item,
            ));
        }
        i = i + 1;
    }
    assert(sv.take(sv.len() as int) =~= sv);
    result
}

/// The entries of a time-keyed map as timed items, in the map's iteration order.
pub fn from_map(items: &RouteItemMapByTime) -> (r: Vec<RouteItemsWithTime>)
    ensures
        distinct_times(times_view(r)),
        times_to_map(times_view(r)) == time_map_view(*items),
        r@.len() == items@.len(),
{
    broadcast use vstd::std_specs::hash::group_hash_axioms;
    let mut result: Vec<RouteItemsWithTime> = Vec::new();
    let ghost m = *items;
    for entry in it: items.iter()
        invariant
            m == *items,
            it.seq() == vstd::std_specs::hash::spec_hash_map_iter(items).remaining(),
            result@.len() == it.index(),
            forall|j: int|
                0 <= j < it.index() ==> (#[trigger] result@[j]).create_time == *it.seq()[j].0
                    && result@[j].item@ == (*it.seq()[j].1)@,
    {
        let (k, v) = entry;
        result.push(RouteItemsWithTime { create_time: *k, item: v.clone() });
    }
    proof {
        let sq = vstd::std_specs::hash::spec_hash_map_iter(items).remaining();
        let rv = times_view(result);
        assert(sq.len() == m@.dom().len());
        assert(sq.no_duplicates());
        assert forall|j: int| 0 <= j < rv.len() implies m@.contains_key(#[trigger] rv[j].create_time)
            && time_map_view(m)[rv[j].create_time] == rv[j].item by {
            assert(m@.contains_key(*sq[j].0) && m@[*sq[j].0] == *sq[j].1);
        }
        assert(distinct_times(rv)) by {
            assert forall|i: int, j: int|
                0 <= i < rv.len() && 0 <= j < rv.len() && i != j implies #[trigger] rv[i].create_time
                != #[trigger] rv[j].create_time by {
                if rv[i].create_time == rv[j].create_time {
                    assert(m@.contains_key(*sq[i].0) && m@[*sq[i].0] == *sq[i].1);
                    assert(m@.contains_key(*sq[j].0) && m@[*sq[j].0] == *sq[j].1);
                    assert(sq[i] == sq[j]);
                }
            }
        }
        lemma_times_to_map_distinct(rv);
        assert forall|k: u64| #[trigger] m@.contains_key(k) implies times_to_map(rv).contains_key(k) by {
            assert(sq.contains((&k, &m@[k])));
            let j = choose|j: int| 0 <= j < sq.len() && sq[j] == (&k, &m@[k]);
            assert(rv[j].create_time == k);
        }
        assert(times_to_map(rv) =~= time_map_view(m));
    }
    result
}


/// Largest number of targets the route table holds.
pub const MAX_ROUTE_ITEM_COUNT: usize = 10240;

/// Age in seconds after which the oldest route of a next hop is dropped first.
pub const ROUTE_EXPIRE_TIME: u64 = 600;

/// The routes learnt through one next hop, keyed by creation time.
pub struct NextHopRoutes {
    pub next: Vec<u8>,
    pub times: RouteItemMapByTime,
}

/// Routes of one target by next hop, then by creation time.
pub type HopsView = Map<Seq<u8>, Map<u64, RouteItemView>>;

/// The model of the route table: targets to their routes.
pub type RouteTableView = Map<Seq<u8>, HopsView>;

/// The routes of a list of next-hop entries.
pub open spec fn hops_seq_view(s: Seq<NextHopRoutes>) -> HopsView
    decreases s.len(),
{
    if s.len() == 0 {
        Map::empty()
    } else {
        hops_seq_view(s.drop_last()).insert(s.last().next@, time_map_view(s.last().times))
    }
}

pub open spec fn hops_view(v: Vec<NextHopRoutes>) -> HopsView {
    hops_seq_view(v@)
}

/// No two next-hop entries share a next hop.
pub open spec fn distinct_nexts(s: Seq<NextHopRoutes>) -> bool {
    forall|i: int, j: int|
        0 <= i < s.len() && 0 <= j < s.len() && i != j ==> (#[trigger] s[i]).next@ != (#[trigger] s[j]).next@
}

/// The routes of `m` after the timed items are merged in, in order: an item whose
/// time is held is merged into the held one, any other is inserted.
pub open spec fn merge_times(m: Map<u64, RouteItemView>, s: Seq<RouteItemsWithTimeView>) -> Map<
    u64,
    RouteItemView,
>
    decreases s.len(),
{
    if s.len() == 0 {
        m
    } else {
        let m2 = merge_times(m, s.drop_last());
        let x = s.last();
        if m2.contains_key(x.create_time) {
            m2.insert(x.create_time, merged_item(m2[x.create_time], x.item))
        } else {
            m2.insert(x.create_time, x.item)
        }
    }
}

/// Some item carries a time that `m` does not hold.
pub open spec fn adds_time(m: Map<u64, RouteItemView>, s: Seq<RouteItemsWithTimeView>) -> bool {
    exists|j: int| 0 <= j < s.len() && !m.contains_key(#[trigger] s[j].create_time)
}

/// `o` is the smaller of `now` and the oldest time held in `m`.
pub open spec fn is_oldest(m: Map<u64, RouteItemView>, now: u64, o: u64) -> bool {
    &&& o <= now
    &&& (o == now || m.contains_key(o))
    &&& forall|k: u64| #[trigger] m.contains_key(k) ==> o <= k
}

/// `mx` is the largest `min_ttl` held in `m`, or 0.
pub open spec fn is_max_ttl(m: Map<u64, RouteItemView>, mx: u8) -> bool {
    &&& forall|k: u64| #[trigger] m.contains_key(k) ==> m[k].min_ttl <= mx
    &&& (mx == 0 || exists|k: u64| #[trigger] m.contains_key(k) && m[k].min_ttl == mx)
}

/// `k` is a time that pruning the routes `m` at time `now` removes. With more than
/// `MAX_ITEM_EACH_NEXT` routes: the oldest one when it is older than
/// `ROUTE_EXPIRE_TIME`, else one with the largest ttl (`now` when every ttl is 0).
/// With fewer, the time `now` itself.
pub open spec fn is_prune_key(m: Map<u64, RouteItemView>, now: u64, k: u64) -> bool {
    if m.len() <= MAX_ITEM_EACH_NEXT {
        k == now
    } else {
        exists|o: u64, mx: u8|
            #![trigger is_oldest(m, now, o), is_max_ttl(m, mx)]
            is_oldest(m, now, o) && is_max_ttl(m, mx) && if now - o > ROUTE_EXPIRE_TIME {
                k == o
            } else if mx == 0 {
                k == now
            } else {
                m.contains_key(k) && m[k].min_ttl == mx
            }
    }
}

/// Merges the timed items into `times`; tells whether a new time was inserted.
fn merge_items_into(times: &mut RouteItemMapByTime, items: &Vec<RouteItemsWithTime>) -> (insert_new: bool)
    ensures
        time_map_view(*final(times)) == merge_times(time_map_view(*old(times)), times_view(*items)),
        insert_new == adds_time(time_map_view(*old(times)), times_view(*items)),
{
    broadcast use vstd::std_specs::hash::group_hash_axioms;
    let ghost m0 = time_map_view(*times);
    let ghost sv = times_view(*items);
    let mut insert_new = false;
    let mut i: usize = 0;
    assert(sv.take(0) =~= Seq::<RouteItemsWithTimeView>::empty());
    while i < items.len()
        invariant
            sv == times_view(*items),
            m0 == time_map_view(*old(times)),
            0 <= i <= sv.len(),
            time_map_view(*times) == merge_times(m0, sv.take(i as int)),
            forall|k: u64|
                #[trigger] time_map_view(*times).contains_key(k) <==> (m0.contains_key(k) || exists|j: int|
                    0 <= j < i && sv[j].create_time == k),
            insert_new == exists|j: int| 0 <= j < i && !m0.contains_key(#[trigger] sv[j].create_time),
        decreases sv.len() - i,
    {
        let t = items[i].create_time;
        let ghost cur = time_map_view(*times);
        assert(time_map_view(*times).contains_key(t) <==> (m0.contains_key(t) || exists|j: int|
            0 <= j < i && sv[j].create_time == t));
        proof {
            assert(sv.take(i + 1).drop_last() =~= sv.take(i as int));
            assert(sv.take(i + 1).last() == sv[i as int]);
        }
        match times.remove(&t) {
            Some(mut org) => {
                org.merge_route_item(&items[i].item);
                times.insert(t, org);
                proof {
                    assert(time_map_view(*times) =~= cur.insert(t, merged_item(cur[t], sv[i as int].item)));
                }
            },
            None => {
                let it = items[i].item.clone();
                times.insert(t, it);
                insert_new = true;
                proof {
                    assert(time_map_view(*times) =~= cur.insert(t, sv[i as int].item));
                    assert(!cur.contains_key(t));
                    assert(!m0.contains_key(sv[i as int].create_time));
                }
            },
        }
        proof {
            assert forall|k: u64|
                #[trigger] time_map_view(*times).contains_key(k) <==> (m0.contains_key(k) || exists|j: int|
                    0 <= j < i + 1 && sv[j].create_time == k) by {
                if k == t {
                    assert(sv[i as int].create_time == k);
                } else {
                    if exists|j: int| 0 <= j < i + 1 && sv[j].create_time == k {
                        let j = choose|j: int| 0 <= j < i + 1 && sv[j].create_time == k;
                        assert(j < i);
                    }
                }
            }
            if insert_new {
                if exists|j: int| 0 <= j < i && !m0.contains_key(#[trigger] sv[j].create_time) {
                } else {
                    assert(!m0.contains_key(sv[i as int].create_time)) by {
                        if m0.contains_key(sv[i as int].create_time) {
                            assert(cur.contains_key(t));
                        }
                    }
                }
            } else {
                assert forall|j: int| 0 <= j < i + 1 implies m0.contains_key(#[trigger] sv[j].create_time) by {
                    if j == i {
                        assert(cur.contains_key(t));
                        if !m0.contains_key(t) {
                            let j2 = choose|j2: int| 0 <= j2 < i && sv[j2].create_time == t;
                            assert(!m0.contains_key(sv[j2].create_time));
                        }
                    }
                }
            }
        }
        i = i + 1;
    }
    assert(sv.take(sv.len() as int) =~= sv);
    insert_new
}

/// Drops one route of a next hop, given the current time `now` in seconds: with more
/// than `MAX_ITEM_EACH_NEXT` routes, the oldest when it is older than
/// `ROUTE_EXPIRE_TIME` and else one with the largest ttl; with fewer, the route
/// created at `now` (usually none).
pub fn prune_next_hop_times(times: &mut RouteItemMapByTime, now: u64)
    ensures
        exists|k: u64|
            is_prune_key(time_map_view(*old(times)), now, k) && time_map_view(*final(times))
                == time_map_view(*old(times)).remove(k),
{
    broadcast use vstd::std_specs::hash::group_hash_axioms;
    let ghost m = time_map_view(*times);
    assert(m.dom() =~= times@.dom());
    let mut oldest: u64 = now;
    let mut max_ttl_key: u64 = now;
    let mut max_ttl: u8 = 0;
    if times.len() > MAX_ITEM_EACH_NEXT {
        let entries = from_map(times);
        let ghost ev = times_view(entries);
        proof {
            lemma_times_to_map_distinct(ev);
            assert forall|j: int| 0 <= j < ev.len() implies #[trigger] m.contains_key(ev[j].create_time)
                && m[ev[j].create_time] == ev[j].item by {
                assert(times_to_map(ev).contains_key(ev[j].create_time));
            }
        }
        let mut i: usize = 0;
        while i < entries.len()
            invariant
                ev == times_view(entries),
                times_to_map(ev) == m,
                0 <= i <= ev.len(),
                oldest <= now,
                oldest == now || m.contains_key(oldest),
                forall|j: int| 0 <= j < i ==> oldest <= #[trigger] ev[j].create_time,
                forall|j: int| 0 <= j < i ==> (#[trigger] ev[j]).item.min_ttl <= max_ttl,
                max_ttl == 0 ==> max_ttl_key == now,
                max_ttl != 0 ==> m.contains_key(max_ttl_key) && m[max_ttl_key].min_ttl == max_ttl,
                forall|j: int|
                    0 <= j < ev.len() ==> #[trigger] m.contains_key(ev[j].create_time) && m[ev[j].create_time]
                        == ev[j].item,
            decreases ev.len() - i,
        {
            let create_time = entries[i].create_time;
            assert(m.contains_key(ev[i as int].create_time));
            if create_time < oldest {
                oldest = create_time;
            }
            if entries[i].item.min_ttl > max_ttl {
                max_ttl = entries[i].item.min_ttl;
                max_ttl_key = create_time;
            }
            i = i + 1;
        }
        proof {
            assert forall|k: u64| #[trigger] m.contains_key(k) implies oldest <= k && m[k].min_ttl <= max_ttl by {
                let j = choose|j: int| 0 <= j < ev.len() && ev[j].create_time == k;
                assert(m.contains_key(ev[j].create_time));
            }
            assert(is_oldest(m, now, oldest));
            assert(is_max_ttl(m, max_ttl));
        }
    }
    let removed = if now - oldest > ROUTE_EXPIRE_TIME {
        oldest
    } else {
        max_ttl_key
    };
    times.remove(&removed);
    proof {
        assert(time_map_view(*times) =~= m.remove(removed));
        assert(is_prune_key(m, now, removed));
    }
}


pub proof fn lemma_hops_distinct(s: Seq<NextHopRoutes>)
    requires
        distinct_nexts(s),
    ensures
        forall|j: int|
            0 <= j < s.len() ==> #[trigger] hops_seq_view(s).contains_key(s[j].next@) && hops_seq_view(s)[s[j].next@]
                == time_map_view(s[j].times),
        forall|n: Seq<u8>|
            #[trigger] hops_seq_view(s).contains_key(n) ==> exists|j: int| 0 <= j < s.len() && s[j].next@ == n,
    decreases s.len(),
{
    if s.len() > 0 {
        let t = s.drop_last();
        assert forall|i: int, j: int|
            0 <= i < t.len() && 0 <= j < t.len() && i != j implies (#[trigger] t[i]).next@ != (#[trigger] t[j]).next@ by {
            assert(t[i] == s[i] && t[j] == s[j]);
        }
        lemma_hops_distinct(t);
        assert(hops_seq_view(s) == hops_seq_view(t).insert(s.last().next@, time_map_view(s.last().times)));
        assert forall|j: int| 0 <= j < s.len() implies #[trigger] hops_seq_view(s).contains_key(s[j].next@)
            && hops_seq_view(s)[s[j].next@] == time_map_view(s[j].times) by {
            if j < s.len() - 1 {
                assert(t[j] == s[j]);
                assert(hops_seq_view(t).contains_key(t[j].next@));
                assert(hops_seq_view(t)[t[j].next@] == time_map_view(t[j].times));
                assert(s[j].next@ != s[s.len() - 1].next@);
            } else {
                assert(s[j] == s.last());
            }
        }
        assert forall|n: Seq<u8>| #[trigger] hops_seq_view(s).contains_key(n) implies exists|j: int|
            0 <= j < s.len() && s[j].next@ == n by {
            if n != s.last().next@ {
                assert(hops_seq_view(t).contains_key(n));
                let j = choose|j: int| 0 <= j < t.len() && t[j].next@ == n;
                assert(s[j] == t[j]);
            } else {
                assert(s[s.len() - 1].next@ == n);
            }
        }
    }
}

proof fn lemma_hops_update(s: Seq<NextHopRoutes>, p: int, e: NextHopRoutes)
    requires
        distinct_nexts(s),
        0 <= p < s.len(),
        e.next@ == s[p].next@,
    ensures
        hops_seq_view(s.update(p, e)) == hops_seq_view(s).insert(e.next@, time_map_view(e.times)),
    decreases s.len(),
{
    let u = s.update(p, e);
    if p == s.len() - 1 {
        assert(u.drop_last() =~= s.drop_last());
        assert(hops_seq_view(u) =~= hops_seq_view(s).insert(e.next@, time_map_view(e.times)));
    } else {
        let t = s.drop_last();
        assert forall|i: int, j: int|
            0 <= i < t.len() && 0 <= j < t.len() && i != j implies (#[trigger] t[i]).next@ != (#[trigger] t[j]).next@ by {
            assert(t[i] == s[i] && t[j] == s[j]);
        }
        lemma_hops_update(t, p, e);
        assert(u.drop_last() =~= t.update(p, e));
        assert(s.last().next@ != s[p].next@);
        assert(hops_seq_view(u) =~= hops_seq_view(s).insert(e.next@, time_map_view(e.times)));
    }
}

/// The models of the values held by a route cache.
pub open spec fn table_view(m: Map<Seq<u8>, Vec<NextHopRoutes>>) -> RouteTableView {
    m.map_values(|v: Vec<NextHopRoutes>| hops_view(v))
}

proof fn lemma_table_view_put(
    old: Map<Seq<u8>, Vec<NextHopRoutes>>,
    new: Map<Seq<u8>, Vec<NextHopRoutes>>,
    cap: nat,
    k: Seq<u8>,
    v: Vec<NextHopRoutes>,
)
    requires
        old.dom().finite(),
        put_result(old, new, cap, k, v),
    ensures
        put_result(table_view(old), table_view(new), cap, k, hops_view(v)),
{
    assert(table_view(old).dom() =~= old.dom());
    if old.contains_key(k) || old.len() < cap {
        assert(table_view(new) =~= table_view(old).insert(k, hops_view(v)));
    } else {
        let e = choose|e: Seq<u8>| old.contains_key(e) && e != k && new == old.remove(e).insert(k, v);
        assert(table_view(new) =~= table_view(old).remove(e).insert(k, hops_view(v)));
    }
}

/// Routes to targets, learnt from neighbours: for each target the next hops, and for
/// each next hop the route items by creation time.
pub struct RouteTable {
    route_items: RouteCache,
}

impl View for RouteTable {
    type V = RouteTableView;

    closed spec fn view(&self) -> RouteTableView {
        table_view(route_cache_entries(self.route_items))
    }
}

/// `hops` with `items` added under the next hop `next`: merged into the routes held
/// for `next`, or taken as its routes when `next` is new.
pub open spec fn hops_with_items(hops: HopsView, next: Seq<u8>, items: Seq<RouteItemsWithTimeView>) -> HopsView {
    if hops.contains_key(next) {
        hops.insert(next, merge_times(hops[next], items))
    } else {
        hops.insert(next, times_to_map(items))
    }
}

/// `new` is the table `o` after adding the timed items `s` for `target` through `next`,
/// the addition having succeeded (`ok`) or not. An unknown target is added (possibly
/// evicting another); for a known target the items are merged into the routes of
/// `next`, and when that adds a new time one route of `next` is pruned at the
/// current time. Only reading the clock for that pruning can fail, and the merged
/// routes are then kept unpruned.
pub open spec fn routes_added(
    o: RouteTableView,
    new: RouteTableView,
    target: Seq<u8>,
    next: Seq<u8>,
    s: Seq<RouteItemsWithTimeView>,
    ok: bool,
) -> bool {
    if !o.contains_key(target) {
        &&& ok
        &&& put_result(o, new, MAX_ROUTE_ITEM_COUNT as nat, target, HopsView::empty().insert(next, times_to_map(s)))
    } else if !o[target].contains_key(next) || !adds_time(o[target][next], s) {
        &&& ok
        &&& new == o.insert(target, hops_with_items(o[target], next, s))
    } else {
        let merged = merge_times(o[target][next], s);
        if ok {
            exists|now: u64, k: u64|
                #![trigger is_prune_key(merged, now, k)]
                is_prune_key(merged, now, k) && new == o.insert(target, o[target].insert(next, merged.remove(k)))
        } else {
            new == o.insert(target, o[target].insert(next, merged))
        }
    }
}

/// `new` is the table `o` after adding the timed items `s` for `target` through `next`
/// at time `now`: as [`routes_added`] on success, a route of `next` being pruned at
/// `now` when the items add a new time to the routes held for it.
pub open spec fn routes_added_at(
    o: RouteTableView,
    new: RouteTableView,
    target: Seq<u8>,
    next: Seq<u8>,
    s: Seq<RouteItemsWithTimeView>,
    now: u64,
) -> bool {
    if !o.contains_key(target) || !o[target].contains_key(next) || !adds_time(o[target][next], s) {
        routes_added(o, new, target, next, s, true)
    } else {
        let merged = merge_times(o[target][next], s);
        exists|k: u64|
            #![trigger is_prune_key(merged, now, k)]
            is_prune_key(merged, now, k) && new == o.insert(target, o[target].insert(next, merged.remove(k)))
    }
}

impl Clone for NextHopRoutes {
    fn clone(&self) -> (r: Self)
        ensures
            r.next@ == self.next@,
            time_map_view(r.times) == time_map_view(self.times),
    {
        NextHopRoutes { next: copy_bytes(&self.next), times: self.times.clone() }
    }
}

/// Copies of a list of next-hop entries.
fn clone_hops(v: &Vec<NextHopRoutes>) -> (r: Vec<NextHopRoutes>)
    ensures
        r@.len() == v@.len(),
        forall|j: int| 0 <= j < v@.len() ==> (#[trigger] r@[j]).next@ == v@[j].next@ && time_map_view(r@[j].times)
            == time_map_view(v@[j].times),
{
    let mut out: Vec<NextHopRoutes> = Vec::new();
    let mut i: usize = 0;
    while i < v.len()
        invariant
            0 <= i <= v@.len(),
            out@.len() == i,
            forall|j: int| 0 <= j < i ==> (#[trigger] out@[j]).next@ == v@[j].next@ && time_map_view(out@[j].times)
                == time_map_view(v@[j].times),
        decreases v@.len() - i,
    {
        out.push(v[i].clone());
        i = i + 1;
    }
    out
}

proof fn lemma_hops_same(a: Seq<NextHopRoutes>, b: Seq<NextHopRoutes>)
    requires
        a.len() == b.len(),
        forall|j: int| 0 <= j < a.len() ==> (#[trigger] a[j]).next@ == b[j].next@ && time_map_view(a[j].times)
            == time_map_view(b[j].times),
    ensures
        hops_seq_view(a) == hops_seq_view(b),
    decreases a.len(),
{
    if a.len() > 0 {
        lemma_hops_same(a.drop_last(), b.drop_last());
    }
}

impl RouteTable {
    /// The table is bounded by `MAX_ROUTE_ITEM_COUNT` targets and holds each next
    /// hop of a target once.
    pub closed spec fn wf(self) -> bool {
        &&& route_cache_cap(self.route_items) == MAX_ROUTE_ITEM_COUNT
        &&& bounded(route_cache_entries(self.route_items), route_cache_cap(self.route_items))
        &&& forall|t: Seq<u8>|
            #[trigger] route_cache_entries(self.route_items).contains_key(t) ==> distinct_nexts(
                route_cache_entries(self.route_items)[t]@,
            )
    }

    /// An empty table.
    pub fn new() -> (t: Self)
        ensures
            t.wf(),
            t@ == RouteTableView::empty(),
    {
        let t = RouteTable { route_items: route_cache_new(MAX_ROUTE_ITEM_COUNT) };
        assert(t@ =~= RouteTableView::empty());
        t
    }

    /// The routes held for `target`.
    pub fn get(&self, target: Vec<u8>) -> (r: Option<Vec<NextHopRoutes>>)
        requires
            self.wf(),
        ensures
            match r {
                Some(v) => self@.contains_key(target@) && hops_view(v) == self@[target@] && distinct_nexts(v@),
                None => !self@.contains_key(target@),
            },
    {
        match route_cache_peek(&self.route_items, &target) {
            Some(v) => {
                let c = clone_hops(v);
                proof {
                    lemma_hops_same(c@, v@);
                    assert forall|i: int, j: int|
                        0 <= i < c@.len() && 0 <= j < c@.len() && i != j implies (#[trigger] c@[i]).next@
                        != (#[trigger] c@[j]).next@ by {
                        assert(v@[i].next@ != v@[j].next@);
                    }
                }
                Some(c)
            },
            None => None,
        }
    }

    /// Adds the routes to `target` learnt through `next`, one item per creation
    /// time: for a known target and next hop the items are merged into the held
    /// ones, and when that adds a new time one route of the next hop is dropped
    /// (see [`prune_next_hop_times`]); an unknown next hop or target is recorded with
    /// the items as they are. Fails only when the clock, read for the dropping, lies
    /// before the Unix epoch; the merged items are then kept.
    pub fn add_route_items(&mut self, target: Vec<u8>, next: Vec<u8>, items: &Vec<RouteItemsWithTime>) -> (r:
        Result<(), ClockError>)
        requires
            old(self).wf(),
        ensures
            final(self).wf(),
            routes_added(old(self)@, final(self)@, target@, next@, times_view(*items), r is Ok),
    {
        self.add_items_with(target, next, items, None)
    }

    /// [`RouteTable::add_route_items`] with the current time `now` (seconds since the
    /// Unix epoch) given rather than read from the clock; it cannot fail.
    pub fn add_route_items_at(&mut self, target: Vec<u8>, next: Vec<u8>, items: &Vec<RouteItemsWithTime>, now: u64)
        requires
            old(self).wf(),
        ensures
            final(self).wf(),
            routes_added_at(old(self)@, final(self)@, target@, next@, times_view(*items), now),
    {
        let _ = self.add_items_with(target, next, items, Some(now));
    }

    /// Adds the routes, pruning at `fixed_now` when given and else at the time the
    /// clock reads when a pruning is due.
    fn add_items_with(
        &mut self,
        target: Vec<u8>,
        next: Vec<u8>,
        items: &Vec<RouteItemsWithTime>,
        fixed_now: Option<u64>,
    ) -> (r: Result<(), ClockError>)
        requires
            old(self).wf(),
        ensures
            final(self).wf(),
            routes_added(old(self)@, final(self)@, target@, next@, times_view(*items), r is Ok),
            fixed_now is Some ==> r is Ok && routes_added_at(
                old(self)@,
                final(self)@,
                target@,
                next@,
                times_view(*items),
                fixed_now->0,
            ),
    {
        let ghost ent0 = route_cache_entries(self.route_items);
        let ghost o = self@;
        let ghost s = times_view(*items);
        proof {
            assert(o.dom() =~= ent0.dom());
        }
        match route_cache_pop(&mut self.route_items, &target) {
            Some(mut hops) => {
                let ghost h0 = hops@;
                assert(distinct_nexts(h0));
                proof {
                    lemma_hops_distinct(h0);
                }
                let mut p: usize = 0;
                let mut found = false;
                while p < hops.len() && !found
                    invariant
                        h0 == hops@,
                        0 <= p <= hops@.len(),
                        found ==> p < hops@.len() && hops@[p as int].next@ == next@,
                        !found ==> forall|j: int| 0 <= j < p ==> (#[trigger] hops@[j]).next@ != next@,
                    decreases hops@.len() - p + if found { 0int } else { 1int },
                {
                    if bytes_equal(&hops[p].next, &next) {
                        found = true;
                    } else {
                        p = p + 1;
                    }
                }
                let mut result: Result<(), ClockError> = Ok(());
                let ghost new_hops_view: HopsView;
                if found {
                    let mut entry = NextHopRoutes { next: Vec::new(), times: HashMap::new() };
                    std::mem::swap(&mut entry, &mut hops[p]);
                    let ghost times0 = time_map_view(entry.times);
                    assert(o[target@] == hops_seq_view(h0));
                    assert(h0[p as int].next@ == next@);
                    assert(hops_seq_view(h0).contains_key(h0[p as int].next@));
                    assert(hops_seq_view(h0)[next@] == times0);
                    let insert_new = merge_items_into(&mut entry.times, items);
                    if insert_new {
                        let ghost merged = time_map_view(entry.times);
                        let clock = match fixed_now {
                            Some(n) => Ok(n),
                            None => unix_now_secs(),
                        };
                        match clock {
                            Ok(now) => {
                                prune_next_hop_times(&mut entry.times, now);
                            },
                            Err(e) => {
                                result = Err(e);
                            },
                        }
                    }
                    let ghost e_view = time_map_view(entry.times);
                    hops.set(p, entry);
                    proof {
                        lemma_hops_update(h0, p as int, hops@[p as int]);
                        assert(hops@ =~= h0.update(p as int, hops@[p as int]));
                        assert forall|i: int, j: int|
                            0 <= i < hops@.len() && 0 <= j < hops@.len() && i != j implies (#[trigger] hops@[i]).next@
                            != (#[trigger] hops@[j]).next@ by {
                            assert(h0[i].next@ == hops@[i].next@);
                            assert(h0[j].next@ == hops@[j].next@);
                        }
                        new_hops_view = o[target@].insert(next@, e_view);
                    }
                } else {
                    let times = to_map(items);
                    let ghost hv = hops_seq_view(h0);
                    proof {
                        assert(!hv.contains_key(next@)) by {
                            if hv.contains_key(next@) {
                                let j = choose|j: int| 0 <= j < h0.len() && h0[j].next@ == next@;
                                assert(h0[j].next@ != next@);
                            }
                        }
                    }
                    hops.push(NextHopRoutes { next, times });
                    proof {
                        assert(hops@.drop_last() =~= h0);
                        assert forall|i: int, j: int|
                            0 <= i < hops@.len() && 0 <= j < hops@.len() && i != j implies (#[trigger] hops@[i]).next@
                            != (#[trigger] hops@[j]).next@ by {
                            if i < h0.len() && j < h0.len() {
                                assert(h0[i] == hops@[i] && h0[j] == hops@[j]);
                            } else if i < h0.len() {
                                assert(h0[i] == hops@[i]);
                                assert(hv.contains_key(h0[i].next@));
                            } else {
                                assert(h0[j] == hops@[j]);
                                assert(hv.contains_key(h0[j].next@));
                            }
                        }
                        new_hops_view = hv.insert(next@, times_to_map(s));
                    }
                }
                let ghost ent1 = route_cache_entries(self.route_items);
                route_cache_put(&mut self.route_items, target, hops);
                proof {
                    assert(ent1 == ent0.remove(target@));
                    assert(ent1.len() < MAX_ROUTE_ITEM_COUNT);
                    let ent2 = route_cache_entries(self.route_items);
                    assert(ent2 == ent1.insert(target@, hops));
                    assert(self@ =~= o.insert(target@, new_hops_view));
                    assert forall|t: Seq<u8>| #[trigger] ent2.contains_key(t) implies distinct_nexts(ent2[t]@) by {
                        if t != target@ {
                            assert(ent0.contains_key(t));
                        }
                    }
                }
                result
            },
            None => {
                let times = to_map(items);
                let mut hops: Vec<NextHopRoutes> = Vec::new();
                hops.push(NextHopRoutes { next, times });
                let ghost ent1 = route_cache_entries(self.route_items);
                route_cache_put(&mut self.route_items, target, hops);
                proof {
                    assert(ent1 == ent0);
                    assert(hops_view(hops) =~= HopsView::empty().insert(next@, times_to_map(s))) by {
                        assert(hops@.drop_last() =~= Seq::<NextHopRoutes>::empty());
                        assert(hops@.last().next@ == next@);
                        assert(time_map_view(hops@.last().times) == times_to_map(s));
                        assert(hops_seq_view(Seq::<NextHopRoutes>::empty()) == HopsView::empty());
                    }
                    lemma_table_view_put(ent0, route_cache_entries(self.route_items), MAX_ROUTE_ITEM_COUNT as nat, target@, hops);
                    let ent2 = route_cache_entries(self.route_items);
                    assert forall|t: Seq<u8>| #[trigger] ent2.contains_key(t) implies distinct_nexts(ent2[t]@) by {
                        if t != target@ {
                            assert(ent0.contains_key(t));
                        }
                    }
                }
                Ok(())
            },
        }
    }
}


proof fn lemma_some_covers_at(mine: Seq<PathView>, q: PathView, i: int)
    requires
        0 <= i < mine.len(),
        path_contains(mine[i], q),
    ensures
        some_covers(mine, q, mine.len() as int),
{
    assert(some_covers(mine, q, i + 1));
    lemma_some_covers_mono(mine, q, i + 1, mine.len() as int);
}

/// Every route tree covers itself.
pub proof fn lemma_path_contains_refl(p: PathView)
    ensures
        path_contains(p, p),
    decreases p,
{
    match p.pathes {
        Some(ps) => {
            lemma_all_covered_refl_upto(p, ps, ps.len() as int);
        },
        None => {},
    }
}

proof fn lemma_all_covered_refl_upto(p: PathView, ps: Seq<PathView>, k: int)
    requires
        p.pathes == Some(ps),
        0 <= k <= ps.len(),
    ensures
        all_covered(ps, ps, k),
    decreases p, k,
{
    if k > 0 {
        lemma_all_covered_refl_upto(p, ps, k - 1);
        assert(decreases_to!(p => p.pathes));
        assert(decreases_to!(p.pathes => p.pathes->0));
        assert(decreases_to!(ps => ps[k - 1]));
        assert(decreases_to!(p => ps[k - 1]));
        lemma_path_contains_refl(ps[k - 1]);
        lemma_some_covers_at(ps, ps[k - 1], k - 1);
    }
}

proof fn lemma_some_covers_append(a: Seq<PathView>, b: Seq<PathView>, q: PathView, k: int)
    requires
        0 <= k <= a.len(),
        some_covers(a, q, k),
    ensures
        some_covers(a + b, q, k),
    decreases k,
{
    if k > 0 {
        assert((a + b)[k - 1] == a[k - 1]);
        if some_covers(a, q, k - 1) {
            lemma_some_covers_append(a, b, q, k - 1);
        }
    }
}

/// Recomputing the ttls of a tree whose ttls were just recomputed changes nothing.
pub proof fn lemma_min_ttl_idempotent(p: PathView)
    ensures
        with_min_ttl(with_min_ttl(p)) == with_min_ttl(p),
    decreases p,
{
    match p.pathes {
        Some(ps) => {
            let r = with_min_ttl(p);
            let nps = r.pathes->0;
            assert forall|i: int| 0 <= i < ps.len() implies #[trigger] with_min_ttl(nps[i]) == nps[i] by {
                assert(decreases_to!(p => p.pathes));
                assert(decreases_to!(p.pathes => p.pathes->0));
                assert(decreases_to!(ps => ps[i]));
                lemma_min_ttl_idempotent(ps[i]);
            }
            assert(nps.len() == ps.len());
            let r2 = with_min_ttl(r);
            let nps2 = r2.pathes->0;
            assert(nps2.len() == nps.len());
            assert forall|i: int| 0 <= i < nps.len() implies nps2[i] == nps[i] by {
                assert(nps2[i] == with_min_ttl(nps[i]));
                assert(with_min_ttl(nps[i]) == nps[i]);
            }
            assert(nps2 =~= nps);
        },
        None => {},
    }
}

/// After merging `other` into `mine`, every branch of `other` is covered by the
/// result.
pub proof fn lemma_merge_covers_other(mine: RouteItemView, other: RouteItemView)
    ensures
        item_contains(merged_item(mine, other), other),
{
    if !item_contains(mine, other) {
        let all = mine.pathes + other.pathes;
        assert forall|k: int| 0 <= k <= other.pathes.len() implies all_covered(all, other.pathes, k) by {
            lemma_all_covered_in_append(mine.pathes, other.pathes, k);
        }
    }
}

proof fn lemma_all_covered_in_append(a: Seq<PathView>, b: Seq<PathView>, k: int)
    requires
        0 <= k <= b.len(),
    ensures
        all_covered(a + b, b, k),
    decreases k,
{
    if k > 0 {
        lemma_all_covered_in_append(a, b, k - 1);
        lemma_path_contains_refl(b[k - 1]);
        assert((a + b)[a.len() + k - 1] == b[k - 1]);
        lemma_some_covers_at(a + b, b[k - 1], a.len() + k - 1);
    }
}

/// Merging keeps at most `MAX_ITEM_EACH_NEXT` branches when there were no more
/// than that before.
pub proof fn lemma_merge_keeps_bound(mine: Seq<PathView>, new_items: PathView)
    requires
        mine.len() <= MAX_ITEM_EACH_NEXT,
    ensures
        merged_paths(mine, new_items).len() <= MAX_ITEM_EACH_NEXT,
{
}

proof fn lemma_uncovered_from(mine: Seq<PathView>, ps: Seq<PathView>, k: int)
    requires
        0 <= k <= ps.len(),
    ensures
        forall|j: int| 0 <= j < uncovered(mine, ps, k).len() ==> ps.contains(#[trigger] uncovered(mine, ps, k)[j]),
    decreases k,
{
    if k > 0 {
        lemma_uncovered_from(mine, ps, k - 1);
        let u = uncovered(mine, ps, k);
        let p = uncovered(mine, ps, k - 1);
        assert forall|j: int| 0 <= j < u.len() implies ps.contains(#[trigger] u[j]) by {
            if j < p.len() {
                assert(u[j] == p[j]);
            } else {
                assert(u[j] == ps[k - 1]);
            }
        }
    }
}

proof fn lemma_uncovered_none(mine: Seq<PathView>, ps: Seq<PathView>, k: int)
    requires
        0 <= k <= ps.len(),
        forall|i: int| 0 <= i < ps.len() ==> covered(mine, #[trigger] ps[i]),
    ensures
        uncovered(mine, ps, k).len() == 0,
    decreases k,
{
    if k > 0 {
        lemma_uncovered_none(mine, ps, k - 1);
    }
}

/// Every branch held after a merge was held before or is a branch of the new route.
pub proof fn lemma_merge_keeps_known_branches(mine: Seq<PathView>, new_items: PathView)
    ensures
        forall|i: int|
            0 <= i < merged_paths(mine, new_items).len() ==> mine.contains(#[trigger] merged_paths(mine, new_items)[i])
                || (new_items.pathes is Some && new_items.pathes->0.contains(merged_paths(mine, new_items)[i])),
{
    match new_items.pathes {
        Some(ps) => {
            let u = uncovered(mine, ps, ps.len() as int);
            lemma_uncovered_from(mine, ps, ps.len() as int);
            let r = merged_paths(mine, new_items);
            if u.len() > 0 && u.len() + mine.len() > MAX_ITEM_EACH_NEXT {
                lemma_sorted_keys_in_range(ttl_keys(u), u.len() as int);
                lemma_sort_keys_elems(ttl_keys(u));
                let b = least_branch(u);
                let rest = mine + u.remove(b);
                lemma_sorted_keys_in_range(ttl_keys(rest), rest.len() as int);
                lemma_sort_keys_elems(ttl_keys(rest));
                assert forall|q: int| 0 <= q < rest.len() implies mine.contains(#[trigger] rest[q]) || ps.contains(rest[q]) by {
                    if q < mine.len() {
                        assert(mine[q] == rest[q]);
                    } else {
                        let w = q - mine.len();
                        if w < b {
                            assert(rest[q] == u[w]);
                        } else {
                            assert(rest[q] == u[w + 1]);
                        }
                    }
                }
                assert forall|i: int| 0 <= i < r.len() implies mine.contains(#[trigger] r[i]) || ps.contains(r[i]) by {
                    if i == 0 {
                        assert(r[0] == u[b]);
                    } else if i == 1 {
                        assert(r[1] == rest[sort_keys(ttl_keys(rest))[0].1 as int]);
                    } else {
                        assert(r[2] == rest[sort_keys(ttl_keys(rest))[1].1 as int]);
                    }
                }
            } else if u.len() > 0 {
                assert forall|i: int| 0 <= i < r.len() implies mine.contains(#[trigger] r[i]) || ps.contains(r[i]) by {
                    if i < mine.len() {
                        assert(r[i] == mine[i]);
                    } else {
                        assert(r[i] == u[i - mine.len()]);
                    }
                }
            } else {
                assert forall|i: int| 0 <= i < r.len() implies mine.contains(#[trigger] r[i]) by {
                    assert(r[i] == mine[i]);
                }
            }
        },
        None => {
            assert forall|i: int| 0 <= i < mine.len() implies mine.contains(#[trigger] mine[i]) by {}
        },
    }
}

/// New branches that are all covered leave the held branches as they are.
pub proof fn lemma_merge_covered_unchanged(mine: Seq<PathView>, new_items: PathView)
    requires
        new_items.pathes is Some ==> forall|i: int|
            0 <= i < new_items.pathes->0.len() ==> covered(mine, #[trigger] new_items.pathes->0[i]),
    ensures
        merged_paths(mine, new_items) == mine,
{
    if new_items.pathes is Some {
        let ps = new_items.pathes->0;
        lemma_uncovered_none(mine, ps, ps.len() as int);
    }
}

/// Routes added for a target the table did not know are read back as given: the
/// target then has exactly the next hop `next`, with the items keyed by their times.
pub proof fn lemma_new_target_routes_read_back(
    o: RouteTableView,
    new: RouteTableView,
    target: Seq<u8>,
    next: Seq<u8>,
    s: Seq<RouteItemsWithTimeView>,
    ok: bool,
)
    requires
        routes_added(o, new, target, next, s, ok),
        !o.contains_key(target),
    ensures
        ok,
        new.contains_key(target),
        new[target] == HopsView::empty().insert(next, times_to_map(s)),
{
    crate::lru_cache::lemma_put_result_holds(
        o,
        new,
        MAX_ROUTE_ITEM_COUNT as nat,
        target,
        HopsView::empty().insert(next, times_to_map(s)),
    );
}

/// Adding routes never touches the routes of other targets, except that adding an
/// unknown target may evict one other target.
pub proof fn lemma_other_targets_kept(
    o: RouteTableView,
    new: RouteTableView,
    target: Seq<u8>,
    next: Seq<u8>,
    s: Seq<RouteItemsWithTimeView>,
    ok: bool,
    other: Seq<u8>,
)
    requires
        routes_added(o, new, target, next, s, ok),
        other != target,
        new.contains_key(other) || o.contains_key(target),
    ensures
        new.contains_key(other) ==> o.contains_key(other) && new[other] == o[other],
        o.contains_key(target) ==> (o.contains_key(other) <==> new.contains_key(other)),
{
    if !o.contains_key(target) {
        crate::lru_cache::lemma_put_result_holds(
            o,
            new,
            MAX_ROUTE_ITEM_COUNT as nat,
            target,
            HopsView::empty().insert(next, times_to_map(s)),
        );
    } else if o[target].contains_key(next) && adds_time(o[target][next], s) && ok {
        let merged = merge_times(o[target][next], s);
        let (now, k) = choose|now: u64, k: u64|
            is_prune_key(merged, now, k) && new == o.insert(target, o[target].insert(next, merged.remove(k)));
    }
}

/// Adding routes at a time `now` keeps a next hop at `MAX_ITEM_EACH_NEXT` routes when
/// it held no more and the items bring it one more time, every route having a positive
/// ttl: exactly one of the merged routes is dropped, the one that pruning at `now`
/// picks (see [`is_prune_key`]).
pub proof fn lemma_added_routes_stay_bounded(
    o: RouteTableView,
    new: RouteTableView,
    target: Seq<u8>,
    next: Seq<u8>,
    s: Seq<RouteItemsWithTimeView>,
    now: u64,
)
    requires
        routes_added_at(o, new, target, next, s, now),
        o.contains_key(target),
        o[target].contains_key(next),
        o[target][next].dom().finite(),
        o[target][next].len() <= MAX_ITEM_EACH_NEXT,
        merge_times(o[target][next], s).len() == MAX_ITEM_EACH_NEXT + 1,
        forall|t: u64|
            #[trigger] merge_times(o[target][next], s).contains_key(t) ==> merge_times(o[target][next], s)[t].min_ttl
                > 0,
    ensures
        new.contains_key(target),
        new[target].contains_key(next),
        new[target][next].len() == MAX_ITEM_EACH_NEXT,
        exists|k: u64|
            #![trigger is_prune_key(merge_times(o[target][next], s), now, k)]
            is_prune_key(merge_times(o[target][next], s), now, k) && merge_times(o[target][next], s).contains_key(k)
                && new[target][next] == merge_times(o[target][next], s).remove(k),
{
    let m = o[target][next];
    let merged = merge_times(m, s);
    lemma_merge_times_finite(m, s);
    assert(adds_time(m, s)) by {
        if !adds_time(m, s) {
            lemma_merge_times_same_times(m, s);
            assert(merged.dom() =~= m.dom());
        }
    }
    let k = choose|k: u64|
        is_prune_key(merged, now, k) && new == o.insert(target, o[target].insert(next, merged.remove(k)));
    let (old_t, mx) = choose|old_t: u64, mx: u8|
        is_oldest(merged, now, old_t) && is_max_ttl(merged, mx) && if now - old_t > ROUTE_EXPIRE_TIME {
            k == old_t
        } else if mx == 0 {
            k == now
        } else {
            merged.contains_key(k) && merged[k].min_ttl == mx
        };
    assert(merged.dom().len() != 0);
    let c = merged.dom().choose();
    assert(merged.contains_key(c));
    assert(merged[c].min_ttl <= mx);
    assert(merged.contains_key(k));
    assert(new[target] == o[target].insert(next, merged.remove(k)));
    assert(merged.remove(k).dom() =~= merged.dom().remove(k));
}

/// Merging timed items into finitely many routes gives finitely many routes.
proof fn lemma_merge_times_finite(m: Map<u64, RouteItemView>, s: Seq<RouteItemsWithTimeView>)
    requires
        m.dom().finite(),
    ensures
        merge_times(m, s).dom().finite(),
    decreases s.len(),
{
    if s.len() > 0 {
        lemma_merge_times_finite(m, s.drop_last());
    }
}

/// Items whose times are all held leave the set of times as it is.
proof fn lemma_merge_times_same_times(m: Map<u64, RouteItemView>, s: Seq<RouteItemsWithTimeView>)
    requires
        !adds_time(m, s),
    ensures
        merge_times(m, s).dom() == m.dom(),
    decreases s.len(),
{
    if s.len() > 0 {
        let p = s.drop_last();
        assert(!adds_time(m, p)) by {
            if adds_time(m, p) {
                let j = choose|j: int| 0 <= j < p.len() && !m.contains_key(#[trigger] p[j].create_time);
                assert(s[j] == p[j]);
            }
        }
        lemma_merge_times_same_times(m, p);
        assert(m.contains_key(s[s.len() - 1].create_time));
        assert(merge_times(m, s).dom() =~= m.dom());
    }
}

impl RouteTable {
    /// The table never holds more than `MAX_ROUTE_ITEM_COUNT` targets.
    pub proof fn lemma_bounded(&self)
        requires
            self.wf(),
        ensures
            self@.dom().finite(),
            self@.len() <= MAX_ROUTE_ITEM_COUNT,
    {
        assert(self@.dom() =~= route_cache_entries(self.route_items).dom());
    }
}

} // verus!
