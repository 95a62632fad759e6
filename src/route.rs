use crate::dijkstra::{is_path, is_walk, reachable, Pathfind};
use crate::map::{cells_adjacent, lemma_index_bound, lemma_index_injective, Tile, TileMap, TileType};
use crate::queue::{frontier_entries, frontier_pop_min, frontier_push, frontier_with_capacity};
use vstd::prelude::*;
use vstd::set_lib::{lemma_int_range, lemma_len_subset, set_int_range};

verus! {

/// Predecessor links of a search, one slot per cell in row-major order:
/// `None` for a cell not reached yet, the coordinates of the cell it was
/// reached from otherwise. The origin links to itself.
pub type Links = Seq<Option<(usize, usize)>>;

impl Pathfind<Tile> for TileMap {
    open spec fn graph_wf(&self) -> bool {
        self.wf()
    }

    open spec fn is_vertex(&self, v: Tile) -> bool {
        self.in_bounds(v.x as int, v.y as int) && self.tile(v.x as int, v.y as int) == v
    }

    open spec fn traversable(&self, v: Tile) -> bool {
        v.tile_type != TileType::Empty
    }

    open spec fn adjacent(&self, a: Tile, b: Tile) -> bool {
        cells_adjacent(a.x as int, a.y as int, b.x as int, b.y as int)
    }

    /// The tiles that are not `Empty`, in row-major order.
    open spec fn vertex_seq(&self) -> Seq<Tile> {
        self.walkable_before(self.height as int, 0)
    }

    /// The neighbours that are not `Empty`, in the order left, up (`y - 1`),
    /// right, down (`y + 1`).
    open spec fn neighbour_seq(&self, v: Tile) -> Seq<Tile> {
        let x = v.x as int;
        let y = v.y as int;
        self.walkable_at(x > 0, x - 1, y) + self.walkable_at(y > 0, x, y - 1) + self.walkable_at(
            x + 1 < self.width,
            x + 1,
            y,
        ) + self.walkable_at(y + 1 < self.height, x, y + 1)
    }

    fn get_all_verticies(&self) -> (r: Vec<Tile>) {
        let mut out: Vec<Tile> = Vec::new();
        let mut y: usize = 0;
        while y < self.height
            invariant
                self.wf(),
                y <= self.height,
                out@ == self.walkable_before(y as int, 0),
                out@.no_duplicates(),
                forall|v: Tile|
                    #[trigger] out@.contains(v) <==> self.is_vertex(v) && self.traversable(v) && v.y
                        < y,
            decreases self.height - y,
        {
            let mut x: usize = 0;
            while x < self.width
                invariant
                    self.wf(),
                    y < self.height,
                    x <= self.width,
                    out@ == self.walkable_before(y as int, x as int),
                    out@.no_duplicates(),
                    forall|v: Tile|
                        #[trigger] out@.contains(v) <==> self.is_vertex(v) && self.traversable(v) && (
                        v.y < y || (v.y == y && v.x < x)),
                decreases self.width - x,
            {
                proof {
                    let t = self.tile(x as int, y as int);
                    if out@.contains(t) {
                        assert(t.x == x && t.y == y);
                    }
                }
                self.push_walkable(&mut out, x, y);
                assert forall|v: Tile|
                    #[trigger] out@.contains(v) <==> self.is_vertex(v) && self.traversable(v) && (v.y
                        < y || (v.y == y && v.x < x + 1)) by {
                    if self.is_vertex(v) && v.y == y && v.x == x {
                        assert(v == self.tile(x as int, y as int));
                    }
                }
                x = x + 1;
            }
            assert(out@ == self.walkable_before(y as int + 1, 0));
            y = y + 1;
        }
        out
    }

    fn get_neighbours(&self, vertex: &Tile) -> (r: Vec<Tile>) {
        let mut neighbours: Vec<Tile> = Vec::new();
        let vx = vertex.x;
        let vy = vertex.y;
        let ghost n0 = neighbours@;
        if vx > 0 {
            self.push_walkable(&mut neighbours, vx - 1, vy);
        }
        let ghost n1 = neighbours@;
        proof {
            if neighbours@.contains(self.tile(vx as int, vy - 1)) {
                assert(vy > 0 ==> self.tile(vx as int, vy - 1).y != vy);
            }
        }
        if vy > 0 {
            self.push_walkable(&mut neighbours, vx, vy - 1);
        }
        let ghost n2 = neighbours@;
        proof {
            let t = self.tile(vx + 1, vy as int);
            if vx + 1 < self.width && neighbours@.contains(t) {
                assert(t.x == vx + 1);
                if n1.contains(t) {
                    assert(t == self.tile(vx - 1, vy as int));
                }
            }
        }
        if vx + 1 < self.width {
            self.push_walkable(&mut neighbours, vx + 1, vy);
        }
        let ghost n3 = neighbours@;
        proof {
            let t = self.tile(vx as int, vy + 1);
            if vy + 1 < self.height && neighbours@.contains(t) {
                assert(t.y == vy + 1);
                if n2.contains(t) {
                    if n1.contains(t) {
                        assert(t == self.tile(vx - 1, vy as int));
                    }
                    assert(t == self.tile(vx as int, vy - 1));
                }
                assert(t == self.tile(vx + 1, vy as int));
            }
        }
        if vy + 1 < self.height {
            self.push_walkable(&mut neighbours, vx, vy + 1);
        }
        assert(neighbours@ =~= self.neighbour_seq(*vertex));
        assert forall|w: Tile|
            #[trigger] neighbours@.contains(w) <==> self.is_vertex(w) && self.adjacent(*vertex, w)
                && self.traversable(w) by {
            if self.is_vertex(w) && self.adjacent(*vertex, w) && self.traversable(w) {
                assert(w == self.tile(w.x as int, w.y as int));
            }
            if n1.contains(w) {
                assert(n2.contains(w));
            }
            if n2.contains(w) {
                assert(n3.contains(w));
            }
        }
        neighbours
    }
}

impl TileMap {
    /// The tile at `(x, y)` as a sequence of one, if `ok` and it is not
    /// `Empty`; nothing otherwise.
    pub open spec fn walkable_at(&self, ok: bool, x: int, y: int) -> Seq<Tile> {
        if ok && self.kind(x, y) != TileType::Empty {
            seq![self.tile(x, y)]
        } else {
            Seq::empty()
        }
    }

    /// The tiles that are not `Empty` among the rows above `y` and the first
    /// `x` tiles of row `y`, in row-major order.
    pub open spec fn walkable_before(&self, y: int, x: int) -> Seq<Tile>
        decreases y, x,
    {
        if x <= 0 {
            if y <= 0 {
                Seq::empty()
            } else {
                self.walkable_before(y - 1, self.width as int)
            }
        } else {
            self.walkable_before(y, x - 1) + self.walkable_at(true, x - 1, y)
        }
    }

    /// Appends the tile at `(x, y)` to `out` unless it is `Empty`.
    fn push_walkable(&self, out: &mut Vec<Tile>, x: usize, y: usize)
        requires
            self.wf(),
            self.in_bounds(x as int, y as int),
        ensures
            final(out)@ == old(out)@ + self.walkable_at(true, x as int, y as int),
            old(out)@.no_duplicates() && !old(out)@.contains(self.tile(x as int, y as int))
                ==> final(out)@.no_duplicates(),
            forall|w: Tile|
                #[trigger] final(out)@.contains(w) <==> old(out)@.contains(w) || (w == self.tile(
                    x as int,
                    y as int,
                ) && w.tile_type != TileType::Empty),
    {
        let t = self.get_tile_at(x, y);
        let ghost before = out@;
        if t.tile_type != TileType::Empty {
            out.push(t);
            assert(out@ =~= before + self.walkable_at(true, x as int, y as int));
            proof {
                if before.no_duplicates() && !before.contains(t) {
                    assert forall|i: int, j: int|
                        0 <= i < out@.len() && 0 <= j < out@.len() && i != j implies out@[i] != out@[j] by {
                        if i == before.len() {
                            assert(out@[j] == before[j]);
                        } else if j == before.len() {
                            assert(out@[i] == before[i]);
                        } else {
                            assert(out@[i] == before[i] && out@[j] == before[j]);
                        }
                    }
                }
            }
            assert forall|w: Tile|
                #[trigger] out@.contains(w) <==> before.contains(w) || w == t by {
                if before.contains(w) {
                    let k = choose|k: int| 0 <= k < before.len() && before[k] == w;
                    assert(out@[k] == w);
                }
                if w == t {
                    assert(out@[before.len() as int] == w);
                }
                if out@.contains(w) && !before.contains(w) {
                    let k = choose|k: int| 0 <= k < out@.len() && out@[k] == w;
                    if k < before.len() {
                        assert(before[k] == w);
                    }
                }
            }
        }
    }
}

impl TileMap {
    /// The cell `(x, y)` has been reached by the search that `prev` records.
    pub open spec fn linked(&self, prev: Links, x: int, y: int) -> bool {
        prev[self.index_of(x, y)] is Some
    }

    /// The cell that `(x, y)` was reached from.
    pub open spec fn link_of(&self, prev: Links, x: int, y: int) -> (usize, usize) {
        prev[self.index_of(x, y)]->Some_0
    }

    /// The bookkeeping of a search from cell `s`: `seen` holds the indices of
    /// the reached cells; each reached cell but `s` links to a reached,
    /// adjacent cell one step nearer to `s`; the queue holds reached cells at
    /// their distance.
    pub open spec fn search_inv(
        &self,
        s: (usize, usize),
        prev: Links,
        seen: Set<int>,
        dist: Map<(int, int), int>,
        entries: Map<(usize, usize), usize>,
    ) -> bool {
        &&& self.wf()
        &&& self.in_bounds(s.0 as int, s.1 as int)
        &&& prev.len() == self.width * self.height
        &&& seen.finite()
        &&& forall|i: int| #[trigger] seen.contains(i) ==> 0 <= i < self.width * self.height
        &&& forall|x: int, y: int|
            self.in_bounds(x, y) ==> (seen.contains(self.index_of(x, y)) <==> #[trigger] self.linked(
                prev,
                x,
                y,
            ))
        &&& prev[self.index_of(s.0 as int, s.1 as int)] == Some(s)
        &&& dist.contains_key((s.0 as int, s.1 as int))
        &&& dist[(s.0 as int, s.1 as int)] == 0
        &&& forall|x: int, y: int|
            self.in_bounds(x, y) && #[trigger] self.linked(prev, x, y) ==> {
                let p = self.link_of(prev, x, y);
                &&& dist.contains_key((x, y))
                &&& 0 <= dist[(x, y)] < seen.len()
                &&& (x != s.0 || y != s.1) ==> {
                    &&& self.in_bounds(p.0 as int, p.1 as int)
                    &&& self.linked(prev, p.0 as int, p.1 as int)
                    &&& cells_adjacent(p.0 as int, p.1 as int, x, y)
                    &&& self.walkable(x, y)
                    &&& dist.contains_key((p.0 as int, p.1 as int))
                    &&& dist[(x, y)] == dist[(p.0 as int, p.1 as int)] + 1
                }
            }
        &&& entries.dom().finite()
        &&& forall|c: (usize, usize)|
            #[trigger] entries.contains_key(c) ==> {
                &&& self.in_bounds(c.0 as int, c.1 as int)
                &&& self.linked(prev, c.0 as int, c.1 as int)
                &&& entries[c] == dist[(c.0 as int, c.1 as int)]
            }
    }

    /// Every reached cell that has left the queue, other than `skip`, has
    /// all its traversable neighbours reached, at most one step further.
    pub open spec fn expanded(
        &self,
        prev: Links,
        dist: Map<(int, int), int>,
        entries: Map<(usize, usize), usize>,
        skip: Option<(usize, usize)>,
    ) -> bool {
        forall|a: Tile, b: Tile|
            #![trigger self.adjacent(a, b), self.linked(prev, a.x as int, a.y as int)]
            self.is_vertex(a) && self.is_vertex(b) && self.linked(prev, a.x as int, a.y as int)
                && !entries.contains_key((a.x, a.y)) && skip != Some((a.x, a.y)) && self.adjacent(a, b)
                && self.traversable(b) ==> self.linked(prev, b.x as int, b.y as int)
                && dist[(b.x as int, b.y as int)] <= dist[(a.x as int, a.y as int)] + 1
    }

    /// The queue holds nothing nearer than `level`, and nothing reached is
    /// further than one step beyond it.
    pub open spec fn levels_ok(
        &self,
        prev: Links,
        dist: Map<(int, int), int>,
        entries: Map<(usize, usize), usize>,
        level: int,
    ) -> bool {
        &&& forall|c: (usize, usize)| #[trigger] entries.contains_key(c) ==> entries[c] >= level
        &&& forall|x: int, y: int|
            self.in_bounds(x, y) && #[trigger] self.linked(prev, x, y) ==> dist[(x, y)] <= level + 1
    }

    /// `v` has been taken from the queue and fully handled.
    pub open spec fn done(
        &self,
        prev: Links,
        entries: Map<(usize, usize), usize>,
        u: (usize, usize),
        v: Tile,
    ) -> bool {
        self.linked(prev, v.x as int, v.y as int) && !entries.contains_key((v.x, v.y)) && (v.x, v.y)
            != u
    }

    /// Some walk leads from the start tile to the end tile.
    pub fn has_path(&self) -> (r: bool)
        requires
            self.wf(),
        ensures
            r == reachable(self, self.start_tile(), self.end_tile()),
    {
        let start = self.get_tile_at(self.start.0, self.start.1);
        let end = self.get_tile_at(self.end.0, self.end.1);
        assert(start != end);
        self.find_path(start, end).is_some()
    }

    /// A shortest walk from `start` to `end` over traversable tiles, found
    /// by a breadth-first search that takes cells from the queue nearest
    /// first: the tiles after `start`, up to and including `end`. `None` when
    /// no walk leads there, and when `start == end`.
    pub fn find_path(&self, start: Tile, end: Tile) -> (r: Option<Vec<Tile>>)
        requires
            self.wf(),
            self.is_vertex(start),
            self.is_vertex(end),
        ensures
            match r {
                Some(p) => {
                    &&& start != end
                    &&& is_path(self, start, end, p@)
                    &&& forall|q: Seq<Tile>| is_path(self, start, end, q) ==> p@.len() <= q.len()
                },
                None => !(start != end && reachable(self, start, end)),
            },
    {
        let verticies = self.get_all_verticies();
        let n = self.width * self.height;
        let mut prev: Vec<Option<(usize, usize)>> = Vec::new();
        let mut i: usize = 0;
        while i < n
            invariant
                i <= n,
                prev@.len() == i,
                forall|k: int| 0 <= k < i ==> #[trigger] prev@[k] is None,
            decreases n - i,
        {
            prev.push(None);
            i = i + 1;
        }
        let s = (start.x, start.y);
        let e = (end.x, end.y);
        proof {
            lemma_index_bound(self.width as int, self.height as int, s.0 as int, s.1 as int);
            self.lemma_link_update(prev@, s, Some(s));
        }
        let si = start.y * self.width + start.x;
        prev.set(si, Some(s));
        let ghost mut seen: Set<int> = Set::empty().insert(si as int);
        let ghost mut dist: Map<(int, int), int> = Map::empty().insert((s.0 as int, s.1 as int), 0);
        let mut queue = frontier_with_capacity(verticies.len());
        frontier_push(&mut queue, s, 0);
        proof {
            assert(seen.len() == 1) by {
                assert(Set::<int>::empty().insert(si as int).len() == 1);
            }
            assert forall|x: int, y: int| self.in_bounds(x, y) implies (seen.contains(self.index_of(x, y))
                <==> #[trigger] self.linked(prev@, x, y)) by {
                lemma_index_bound(self.width as int, self.height as int, x, y);
                if self.index_of(x, y) == si {
                    lemma_index_injective(self.width as int, x, y, s.0 as int, s.1 as int);
                }
            }
            assert forall|x: int, y: int| self.in_bounds(x, y) && #[trigger] self.linked(prev@, x, y)
                implies x == s.0 && y == s.1 by {
                lemma_index_bound(self.width as int, self.height as int, x, y);
                if self.index_of(x, y) == si {
                    lemma_index_injective(self.width as int, x, y, s.0 as int, s.1 as int);
                }
            }
            assert(self.search_inv(s, prev@, seen, dist, frontier_entries(queue)));
            assert(frontier_entries(queue).dom() =~= set![s]);
        }
        let ghost mut level: int = 0;
        let mut found = false;
        loop
            invariant
                self.wf(),
                self.is_vertex(start),
                self.is_vertex(end),
                s == (start.x, start.y),
                e == (end.x, end.y),
                n == self.width * self.height,
                self.search_inv(s, prev@, seen, dist, frontier_entries(queue)),
                seen.len() <= n,
                self.levels_ok(prev@, dist, frontier_entries(queue), level),
                frontier_entries(queue).contains_key(s) ==> frontier_entries(queue).dom() =~= set![s],
                found ==> forall|p: Seq<Tile>|
                    is_path(self, start, end, p) ==> p.len() >= dist[(e.0 as int, e.1 as int)],
                !found ==> self.expanded(prev@, dist, frontier_entries(queue), None),
                !found ==> (s == e || !self.linked(prev@, e.0 as int, e.1 as int)),
                found ==> s != e && self.linked(prev@, e.0 as int, e.1 as int),
            ensures
                self.search_inv(s, prev@, seen, dist, frontier_entries(queue)),
                found ==> s != e && self.linked(prev@, e.0 as int, e.1 as int),
                found ==> forall|p: Seq<Tile>|
                    is_path(self, start, end, p) ==> p.len() >= dist[(e.0 as int, e.1 as int)],
                !found ==> {
                    &&& frontier_entries(queue).dom() =~= Set::empty()
                    &&& self.expanded(prev@, dist, frontier_entries(queue), None)
                    &&& (s == e || !self.linked(prev@, e.0 as int, e.1 as int))
                },
            decreases (n - seen.len()) + frontier_entries(queue).dom().len(),
        {
            let ghost measure = (n - seen.len()) + frontier_entries(queue).dom().len();
            let ghost e0 = frontier_entries(queue);
            let popped = frontier_pop_min(&mut queue);
            match popped {
                None => {
                    assert(e0.dom() =~= Set::empty());
                    break;
                },
                Some((u, d)) => {
                    proof {
                        assert(e0.dom().contains(u));
                        assert(frontier_entries(queue).dom() =~= e0.dom().remove(u));
                        assert(d >= level);
                        level = d as int;
                        if e0.contains_key(s) {
                            assert(e0.dom().contains(s));
                            assert(u == s);
                        }
                        assert(!frontier_entries(queue).contains_key(s));
                        assert forall|c: (usize, usize)| #[trigger] frontier_entries(queue).contains_key(c)
                            implies frontier_entries(queue)[c] >= level by {
                            assert(e0.contains_key(c));
                        }
                    }
                    let tile_u = self.get_tile_at(u.0, u.1);
                    let neighbours = self.get_neighbours(&tile_u);
                    let mut j: usize = 0;
                    while j < neighbours.len() && !found
                        invariant
                            self.wf(),
                            self.is_vertex(start),
                            self.is_vertex(end),
                            s == (start.x, start.y),
                            e == (end.x, end.y),
                            n == self.width * self.height,
                            j <= neighbours.len(),
                            self.search_inv(s, prev@, seen, dist, frontier_entries(queue)),
                            tile_u == self.tile(u.0 as int, u.1 as int),
                            self.in_bounds(u.0 as int, u.1 as int),
                            self.linked(prev@, u.0 as int, u.1 as int),
                            !frontier_entries(queue).contains_key(u),
                            dist[(u.0 as int, u.1 as int)] == d as int,
                            forall|w: Tile|
                                #[trigger] neighbours@.contains(w) <==> self.is_vertex(w)
                                    && self.adjacent(tile_u, w) && self.traversable(w),
                            (n - seen.len()) + frontier_entries(queue).dom().len() <= measure - 1,
                            seen.len() <= n,
                            level == d as int,
                            self.levels_ok(prev@, dist, frontier_entries(queue), level),
                            !frontier_entries(queue).contains_key(s),
                            found ==> forall|p: Seq<Tile>|
                                is_path(self, start, end, p) ==> p.len() >= dist[(e.0 as int, e.1 as int)],
                            !found ==> self.expanded(prev@, dist, frontier_entries(queue), Some(u)),
                            !found ==> forall|k: int|
                                0 <= k < j ==> #[trigger] self.linked(
                                    prev@,
                                    neighbours@[k].x as int,
                                    neighbours@[k].y as int,
                                ),
                            !found ==> (s == e || !self.linked(prev@, e.0 as int, e.1 as int)),
                            found ==> s != e && self.linked(prev@, e.0 as int, e.1 as int),
                        decreases neighbours.len() - j,
                    {
                        let nb = neighbours[j];
                        assert(neighbours@.contains(nb));
                        proof {
                            lemma_index_bound(self.width as int, self.height as int, nb.x as int, nb.y as int);
                        }
                        let ni = nb.y * self.width + nb.x;
                        assert(self.linked(prev@, nb.x as int, nb.y as int) == (prev@[ni as int] is Some));
                        if prev[ni].is_none() {
                            let c = (nb.x, nb.y);
                            let ghost old_prev = prev@;
                            let ghost old_entries = frontier_entries(queue);
                            proof {
                                self.lemma_discover(s, prev@, seen, dist, frontier_entries(queue), u, d, c);
                                self.lemma_discover_levels(s, prev@, seen, dist, frontier_entries(queue), u, d, c);
                                if nb.x == e.0 && nb.y == e.1 {
                                    assert(end == nb);
                                    assert forall|p: Seq<Tile>| is_path(self, start, end, p) implies p.len()
                                        >= d + 1 by {
                                        self.lemma_no_shorter(
                                            s,
                                            prev@,
                                            seen,
                                            dist,
                                            frontier_entries(queue),
                                            u,
                                            d,
                                            start,
                                            end,
                                            p,
                                        );
                                    }
                                }
                            }
                            prev.set(ni, Some(u));
                            proof {
                                seen = seen.insert(ni as int);
                                dist = dist.insert((nb.x as int, nb.y as int), d as int + 1);
                                assert forall|k: int| 0 <= k < j implies #[trigger] self.linked(
                                    prev@,
                                    neighbours@[k].x as int,
                                    neighbours@[k].y as int,
                                ) by {
                                    let w = neighbours@[k];
                                    assert(neighbours@.contains(w));
                                    assert(self.linked(old_prev, w.x as int, w.y as int));
                                }
                                assert(self.linked(prev@, nb.x as int, nb.y as int));
                            }
                            if nb.x == e.0 && nb.y == e.1 {
                                found = true;
                            } else {
                                frontier_push(&mut queue, c, d + 1);
                                assert(frontier_entries(queue).dom() =~= old_entries.dom().insert(c));
                            }
                        }
                        proof {
                            if !found {
                                assert(self.linked(prev@, nb.x as int, nb.y as int));
                                assert forall|k: int| 0 <= k < j + 1 implies #[trigger] self.linked(
                                    prev@,
                                    neighbours@[k].x as int,
                                    neighbours@[k].y as int,
                                ) by {
                                    if k == j {
                                        assert(neighbours@[k] == nb);
                                    }
                                }
                            }
                        }
                        j = j + 1;
                    }
                    proof {
                        if !found {
                            assert forall|a: Tile, b: Tile|
                                #![trigger self.adjacent(a, b), self.linked(prev@, a.x as int, a.y as int)]
                                self.is_vertex(a) && self.is_vertex(b) && self.linked(prev@, a.x as int, a.y as int)
                                    && !frontier_entries(queue).contains_key((a.x, a.y)) && None::<(usize, usize)>
                                    != Some((a.x, a.y)) && self.adjacent(a, b) && self.traversable(b)
                                implies self.linked(prev@, b.x as int, b.y as int)
                                && dist[(b.x as int, b.y as int)] <= dist[(a.x as int, a.y as int)] + 1 by {
                                if (a.x, a.y) == u {
                                    assert(a == tile_u);
                                    assert(neighbours@.contains(b));
                                    let k = choose|k: int| 0 <= k < neighbours@.len() && neighbours@[k] == b;
                                    assert(self.linked(prev@, neighbours@[k].x as int, neighbours@[k].y as int));
                                }
                            }
                        }
                    }
                    if found {
                        break;
                    }
                },
            }
        }
        if !found {
            proof {
                if start != end && reachable(self, start, end) {
                    let p = choose|p: Seq<Tile>| is_path(self, start, end, p);
                    self.lemma_walk_linked(prev@, dist, frontier_entries(queue), start, p);
                }
            }
            return None;
        }
        let mut path: Vec<Tile> = Vec::new();
        let mut c = e;
        while c.0 != s.0 || c.1 != s.1
            invariant
                self.wf(),
                self.is_vertex(start),
                self.is_vertex(end),
                s == (start.x, start.y),
                e == (end.x, end.y),
                s != e,
                self.search_inv(s, prev@, seen, dist, frontier_entries(queue)),
                self.in_bounds(c.0 as int, c.1 as int),
                self.linked(prev@, c.0 as int, c.1 as int),
                path@.len() == 0 ==> c == e,
                path@.len() > 0 ==> path@.last() == end,
                path@.len() + dist[(c.0 as int, c.1 as int)] == dist[(e.0 as int, e.1 as int)],
                forall|p: Seq<Tile>|
                    is_path(self, start, end, p) ==> p.len() >= dist[(e.0 as int, e.1 as int)],
                is_walk(self, self.tile(c.0 as int, c.1 as int), path@),
            decreases dist[(c.0 as int, c.1 as int)],
        {
            let t = self.get_tile_at(c.0, c.1);
            let ghost old_path = path@;
            path.insert(0, t);
            proof {
                lemma_index_bound(self.width as int, self.height as int, c.0 as int, c.1 as int);
            }
            let ci = c.1 * self.width + c.0;
            let ghost old_c = c;
            c = prev[ci].unwrap();
            proof {
                assert(self.linked(prev@, old_c.0 as int, old_c.1 as int));
                assert(path@ =~= seq![t].add(old_path));
                let tc = self.tile(c.0 as int, c.1 as int);
                assert(tc.x == c.0 && tc.y == c.1);
                self.lemma_walk_prepend(t, tc, old_path, path@);
            }
        }
        Some(path)
    }

    /// Reaching the new cell `c` from the reached cell `u` keeps the
    /// bookkeeping of the search.
    pub proof fn lemma_discover(
        &self,
        s: (usize, usize),
        prev: Links,
        seen: Set<int>,
        dist: Map<(int, int), int>,
        entries: Map<(usize, usize), usize>,
        u: (usize, usize),
        d: usize,
        c: (usize, usize),
    )
        requires
            self.search_inv(s, prev, seen, dist, entries),
            self.in_bounds(u.0 as int, u.1 as int),
            self.linked(prev, u.0 as int, u.1 as int),
            dist[(u.0 as int, u.1 as int)] == d as int,
            self.walkable(c.0 as int, c.1 as int),
            cells_adjacent(u.0 as int, u.1 as int, c.0 as int, c.1 as int),
            !self.linked(prev, c.0 as int, c.1 as int),
        ensures
            ({
                let prev2 = prev.update(self.index_of(c.0 as int, c.1 as int), Some(u));
                let seen2 = seen.insert(self.index_of(c.0 as int, c.1 as int));
                let dist2 = dist.insert((c.0 as int, c.1 as int), d as int + 1);
                &&& self.search_inv(s, prev2, seen2, dist2, entries)
                &&& self.search_inv(s, prev2, seen2, dist2, entries.insert(c, (d + 1) as usize))
                &&& seen2.len() == seen.len() + 1
                &&& seen2.len() <= self.width * self.height
                &&& d + 1 <= usize::MAX
                &&& !entries.contains_key(c)
                &&& c != s
                &&& forall|x: int, y: int|
                    self.in_bounds(x, y) ==> (#[trigger] self.linked(prev2, x, y) <==> (self.linked(
                        prev,
                        x,
                        y,
                    ) || (x == c.0 && y == c.1)))
            }),
    {
        let n = self.width * self.height;
        let ci = self.index_of(c.0 as int, c.1 as int);
        let prev2 = prev.update(ci, Some(u));
        let seen2 = seen.insert(ci);
        let dist2 = dist.insert((c.0 as int, c.1 as int), d as int + 1);
        lemma_index_bound(self.width as int, self.height as int, c.0 as int, c.1 as int);
        self.lemma_link_update(prev, c, Some(u));
        lemma_int_range(0, n as int);
        assert(seen.subset_of(set_int_range(0, n as int)));
        lemma_len_subset(seen, set_int_range(0, n as int));
        assert(!seen.contains(ci));
        assert(seen2.len() == seen.len() + 1);
        assert(seen2.subset_of(set_int_range(0, n as int)));
        lemma_len_subset(seen2, set_int_range(0, n as int));
        assert(dist[(u.0 as int, u.1 as int)] < seen.len());
        assert forall|x: int, y: int|
            self.in_bounds(x, y) implies (#[trigger] self.linked(prev2, x, y) <==> (self.linked(prev, x, y)
                || (x == c.0 && y == c.1))) by {
            if !(x == c.0 && y == c.1) {
                assert(prev2[self.index_of(x, y)] == prev[self.index_of(x, y)]);
            }
        }
        assert forall|x: int, y: int|
            self.in_bounds(x, y) implies (seen2.contains(self.index_of(x, y)) <==> #[trigger] self.linked(
                prev2,
                x,
                y,
            )) by {
            lemma_index_bound(self.width as int, self.height as int, x, y);
            if self.index_of(x, y) == ci {
                lemma_index_injective(self.width as int, x, y, c.0 as int, c.1 as int);
            }
            if !(x == c.0 && y == c.1) {
                assert(self.linked(prev, x, y) == self.linked(prev2, x, y));
            }
        }
        assert forall|x: int, y: int|
            self.in_bounds(x, y) && #[trigger] self.linked(prev2, x, y) implies {
                let p = self.link_of(prev2, x, y);
                &&& dist2.contains_key((x, y))
                &&& 0 <= dist2[(x, y)] < seen2.len()
                &&& (x != s.0 || y != s.1) ==> {
                    &&& self.in_bounds(p.0 as int, p.1 as int)
                    &&& self.linked(prev2, p.0 as int, p.1 as int)
                    &&& cells_adjacent(p.0 as int, p.1 as int, x, y)
                    &&& self.walkable(x, y)
                    &&& dist2.contains_key((p.0 as int, p.1 as int))
                    &&& dist2[(x, y)] == dist2[(p.0 as int, p.1 as int)] + 1
                }
            } by {
            if x == c.0 && y == c.1 {
                assert(self.link_of(prev2, x, y) == u);
                assert(self.linked(prev2, u.0 as int, u.1 as int));
            } else {
                assert(prev2[self.index_of(x, y)] == prev[self.index_of(x, y)]);
                assert(self.linked(prev, x, y));
                let p = self.link_of(prev, x, y);
                if x != s.0 || y != s.1 {
                    assert(self.linked(prev2, p.0 as int, p.1 as int));
                    assert((p.0 as int, p.1 as int) != (c.0 as int, c.1 as int));
                }
                assert((x, y) != (c.0 as int, c.1 as int));
            }
        }
        assert(prev2[self.index_of(s.0 as int, s.1 as int)] == Some(s)) by {
            assert(self.linked(prev, s.0 as int, s.1 as int));
        }
        assert forall|k: (usize, usize)| #[trigger] entries.contains_key(k) implies {
            &&& self.in_bounds(k.0 as int, k.1 as int)
            &&& self.linked(prev2, k.0 as int, k.1 as int)
            &&& entries[k] == dist2[(k.0 as int, k.1 as int)]
        } by {
            assert(self.linked(prev2, k.0 as int, k.1 as int));
            assert((k.0 as int, k.1 as int) != (c.0 as int, c.1 as int));
        }
        let entries2 = entries.insert(c, (d + 1) as usize);
        assert forall|k: (usize, usize)| #[trigger] entries2.contains_key(k) implies {
            &&& self.in_bounds(k.0 as int, k.1 as int)
            &&& self.linked(prev2, k.0 as int, k.1 as int)
            &&& entries2[k] == dist2[(k.0 as int, k.1 as int)]
        } by {
            if k != c {
                assert(entries.contains_key(k));
                assert((k.0 as int, k.1 as int) != (c.0 as int, c.1 as int));
            }
        }
        assert(!entries.contains_key(c));
    }

    /// Reaching the new cell `c` from `u`, at one step beyond `u`, keeps the
    /// distance bookkeeping of the search.
    pub proof fn lemma_discover_levels(
        &self,
        s: (usize, usize),
        prev: Links,
        seen: Set<int>,
        dist: Map<(int, int), int>,
        entries: Map<(usize, usize), usize>,
        u: (usize, usize),
        d: usize,
        c: (usize, usize),
    )
        requires
            self.search_inv(s, prev, seen, dist, entries),
            self.levels_ok(prev, dist, entries, d as int),
            self.expanded(prev, dist, entries, Some(u)),
            self.in_bounds(u.0 as int, u.1 as int),
            self.linked(prev, u.0 as int, u.1 as int),
            dist[(u.0 as int, u.1 as int)] == d as int,
            self.walkable(c.0 as int, c.1 as int),
            cells_adjacent(u.0 as int, u.1 as int, c.0 as int, c.1 as int),
            !self.linked(prev, c.0 as int, c.1 as int),
        ensures
            ({
                let prev2 = prev.update(self.index_of(c.0 as int, c.1 as int), Some(u));
                let dist2 = dist.insert((c.0 as int, c.1 as int), d as int + 1);
                let entries2 = entries.insert(c, (d + 1) as usize);
                &&& self.levels_ok(prev2, dist2, entries, d as int)
                &&& self.levels_ok(prev2, dist2, entries2, d as int)
                &&& self.expanded(prev2, dist2, entries2, Some(u))
            }),
    {
        let prev2 = prev.update(self.index_of(c.0 as int, c.1 as int), Some(u));
        let dist2 = dist.insert((c.0 as int, c.1 as int), d as int + 1);
        let entries2 = entries.insert(c, (d + 1) as usize);
        self.lemma_discover(s, prev, seen, dist, entries, u, d, c);
        assert forall|x: int, y: int|
            self.in_bounds(x, y) && #[trigger] self.linked(prev2, x, y) implies dist2[(x, y)] <= d + 1 by {
            if !(x == c.0 && y == c.1) {
                assert(self.linked(prev, x, y));
            }
        }
        assert forall|a: Tile, b: Tile|
            #![trigger self.adjacent(a, b), self.linked(prev2, a.x as int, a.y as int)]
            self.is_vertex(a) && self.is_vertex(b) && self.linked(prev2, a.x as int, a.y as int)
                && !entries2.contains_key((a.x, a.y)) && Some(u) != Some((a.x, a.y)) && self.adjacent(
                a,
                b,
            ) && self.traversable(b) implies self.linked(prev2, b.x as int, b.y as int)
            && dist2[(b.x as int, b.y as int)] <= dist2[(a.x as int, a.y as int)] + 1 by {
            assert((a.x, a.y) != c);
            assert(self.linked(prev, a.x as int, a.y as int));
            assert(self.linked(prev, b.x as int, b.y as int));
            assert((b.x as int, b.y as int) != (c.0 as int, c.1 as int));
            assert((a.x as int, a.y as int) != (c.0 as int, c.1 as int));
        }
    }

    /// While the search is at `level` `d`, handling `u`, and `end` has not
    /// been reached, every walk from `start` to `end` has more than `d`
    /// steps.
    pub proof fn lemma_no_shorter(
        &self,
        s: (usize, usize),
        prev: Links,
        seen: Set<int>,
        dist: Map<(int, int), int>,
        entries: Map<(usize, usize), usize>,
        u: (usize, usize),
        d: usize,
        start: Tile,
        end: Tile,
        p: Seq<Tile>,
    )
        requires
            self.search_inv(s, prev, seen, dist, entries),
            self.levels_ok(prev, dist, entries, d as int),
            self.expanded(prev, dist, entries, Some(u)),
            self.is_vertex(start),
            self.is_vertex(end),
            s == (start.x, start.y),
            !self.linked(prev, end.x as int, end.y as int),
            self.in_bounds(u.0 as int, u.1 as int),
            self.linked(prev, u.0 as int, u.1 as int),
            !entries.contains_key(u),
            dist[(u.0 as int, u.1 as int)] == d as int,
            u == s || !entries.contains_key(s),
            is_path(self, start, end, p),
        ensures
            p.len() >= d + 1,
    {
        if u != s {
            self.lemma_scan(s, prev, seen, dist, entries, u, d, start, end, p, 0);
        }
    }

    proof fn lemma_scan(
        &self,
        s: (usize, usize),
        prev: Links,
        seen: Set<int>,
        dist: Map<(int, int), int>,
        entries: Map<(usize, usize), usize>,
        u: (usize, usize),
        d: usize,
        start: Tile,
        end: Tile,
        p: Seq<Tile>,
        j: int,
    )
        requires
            self.search_inv(s, prev, seen, dist, entries),
            self.levels_ok(prev, dist, entries, d as int),
            self.expanded(prev, dist, entries, Some(u)),
            self.is_vertex(start),
            self.is_vertex(end),
            s == (start.x, start.y),
            !self.linked(prev, end.x as int, end.y as int),
            self.in_bounds(u.0 as int, u.1 as int),
            !entries.contains_key(u),
            dist[(u.0 as int, u.1 as int)] == d as int,
            u != s,
            !entries.contains_key(s),
            is_path(self, start, end, p),
            0 <= j < p.len(),
            forall|i: int| 0 <= i < j ==> self.done(prev, entries, u, #[trigger] p[i]),
        ensures
            p.len() >= d + 1,
        decreases p.len() - j,
    {
        self.lemma_prefix_bound(s, prev, seen, dist, entries, u, start, p, j);
        let v = p[j];
        if self.done(prev, entries, u, v) {
            if j + 1 < p.len() {
                assert forall|i: int| 0 <= i < j + 1 implies self.done(prev, entries, u, #[trigger] p[i]) by {
                    if i == j {
                        assert(p[i] == v);
                    }
                }
                self.lemma_scan(s, prev, seen, dist, entries, u, d, start, end, p, j + 1);
            } else {
                assert(v == end);
            }
        } else {
            if (v.x, v.y) != u {
                assert(entries.contains_key((v.x, v.y)));
            }
            assert(v != end);
        }
    }

    proof fn lemma_prefix_bound(
        &self,
        s: (usize, usize),
        prev: Links,
        seen: Set<int>,
        dist: Map<(int, int), int>,
        entries: Map<(usize, usize), usize>,
        u: (usize, usize),
        start: Tile,
        p: Seq<Tile>,
        j: int,
    )
        requires
            self.search_inv(s, prev, seen, dist, entries),
            self.expanded(prev, dist, entries, Some(u)),
            self.is_vertex(start),
            s == (start.x, start.y),
            u != s,
            !entries.contains_key(s),
            is_walk(self, start, p),
            0 <= j < p.len(),
            forall|i: int| 0 <= i < j ==> self.done(prev, entries, u, #[trigger] p[i]),
        ensures
            self.linked(prev, p[j].x as int, p[j].y as int),
            dist[(p[j].x as int, p[j].y as int)] <= j + 1,
        decreases j,
    {
        let b = p[j];
        assert(self.is_vertex(b) && self.traversable(b));
        if j == 0 {
            assert(self.adjacent(start, b));
            assert(self.linked(prev, start.x as int, start.y as int));
        } else {
            let a = p[j - 1];
            assert(self.done(prev, entries, u, a));
            self.lemma_prefix_bound(s, prev, seen, dist, entries, u, start, p, j - 1);
            assert(self.adjacent(a, b));
        }
    }

    /// Putting `t` before a walk from `t` gives a walk from any neighbour of `t`.
    pub proof fn lemma_walk_prepend(&self, t: Tile, from: Tile, old_path: Seq<Tile>, path: Seq<Tile>)
        requires
            self.is_vertex(t),
            self.traversable(t),
            self.adjacent(from, t),
            is_walk(self, t, old_path),
            path == seq![t].add(old_path),
        ensures
            is_walk(self, from, path),
    {
        assert forall|i: int| 0 <= i < path.len() implies {
            &&& self.is_vertex(#[trigger] path[i])
            &&& self.traversable(path[i])
            &&& self.adjacent(if i == 0 { from } else { path[i - 1] }, path[i])
        } by {
            if i > 0 {
                assert(path[i] == old_path[i - 1]);
                assert(path[i - 1] == if i == 1 { t } else { old_path[i - 2] });
            }
        }
    }

    /// Setting the slot of cell `c` leaves the slots of all other cells as
    /// they were.
    pub proof fn lemma_link_update(&self, prev: Links, c: (usize, usize), v: Option<(usize, usize)>)
        requires
            self.wf(),
            self.in_bounds(c.0 as int, c.1 as int),
            prev.len() == self.width * self.height,
        ensures
            forall|x: int, y: int|
                self.in_bounds(x, y) && !(x == c.0 && y == c.1) ==> #[trigger] prev.update(
                    self.index_of(c.0 as int, c.1 as int),
                    v,
                )[self.index_of(x, y)] == prev[self.index_of(x, y)],
            prev.update(self.index_of(c.0 as int, c.1 as int), v)[self.index_of(
                c.0 as int,
                c.1 as int,
            )] == v,
    {
        lemma_index_bound(self.width as int, self.height as int, c.0 as int, c.1 as int);
        assert forall|x: int, y: int|
            self.in_bounds(x, y) && !(x == c.0 && y == c.1) implies #[trigger] prev.update(
                self.index_of(c.0 as int, c.1 as int),
                v,
            )[self.index_of(x, y)] == prev[self.index_of(x, y)] by {
            lemma_index_bound(self.width as int, self.height as int, x, y);
            if self.index_of(x, y) == self.index_of(c.0 as int, c.1 as int) {
                lemma_index_injective(self.width as int, x, y, c.0 as int, c.1 as int);
            }
        }
    }

    /// Once the queue is empty, every walk from the origin stays among the
    /// reached cells.
    pub proof fn lemma_walk_linked(
        &self,
        prev: Links,
        dist: Map<(int, int), int>,
        entries: Map<(usize, usize), usize>,
        start: Tile,
        p: Seq<Tile>,
    )
        requires
            self.wf(),
            self.is_vertex(start),
            self.linked(prev, start.x as int, start.y as int),
            entries.dom() =~= Set::empty(),
            self.expanded(prev, dist, entries, None),
            is_walk(self, start, p),
        ensures
            p.len() > 0 ==> self.linked(prev, p.last().x as int, p.last().y as int),
        decreases p.len(),
    {
        if p.len() > 0 {
            let a = if p.len() == 1 { start } else { p[p.len() - 2] };
            let b = p.last();
            assert(self.is_vertex(b) && self.traversable(b) && self.adjacent(a, b));
            if p.len() > 1 {
                let q = p.drop_last();
                assert(is_walk(self, start, q)) by {
                    assert forall|i: int| 0 <= i < q.len() implies {
                        &&& self.is_vertex(#[trigger] q[i])
                        &&& self.traversable(q[i])
                        &&& self.adjacent(if i == 0 { start } else { q[i - 1] }, q[i])
                    } by {
                        assert(q[i] == p[i]);
                        if i > 0 {
                            assert(q[i - 1] == p[i - 1]);
                        }
                    }
                }
                self.lemma_walk_linked(prev, dist, entries, start, q);
                assert(q.last() == a);
            }
            assert(!entries.contains_key((a.x, a.y)));
        }
    }
}

} // verus!
