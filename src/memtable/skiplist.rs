use vstd::prelude::*;
use core::cmp::Ordering;
use crate::dbformat::{
    lemma_compare_bytes_equal, lemma_compare_internal_antisym, lemma_compare_internal_trans,
    spec_compare_internal, spec_user_key, InternalKeyComparator,
};
use crate::util::coding::{decode_size_prefixed_slice, spec_decode_size_prefixed};
use crate::util::random::Random;

verus! {

/// The most levels a node can have.
pub const MAX_HEIGHT: usize = 12;

/// A node reaching level `h` also reaches level `h + 1` with probability 1/BRANCHING.
pub const BRANCHING: u32 = 4;

/// The seed of the height generator.
pub const HEIGHT_SEED: u32 = 0xdeadbeef;

/// The internal key at the front of a length-prefixed buffer.
pub open spec fn entry_key(e: Seq<u8>) -> Seq<u8> {
    spec_decode_size_prefixed(e).unwrap().0
}

/// A buffer that starts with a length-prefixed internal key: a seek target.
pub open spec fn valid_target(e: Seq<u8>) -> bool {
    spec_decode_size_prefixed(e) is Some && entry_key(e).len() >= 8
}

/// The order of buffers: the internal-key order of their leading keys.
pub open spec fn entry_cmp(a: Seq<u8>, b: Seq<u8>) -> Ordering {
    spec_compare_internal(entry_key(a), entry_key(b))
}

pub open spec fn entry_lt(a: Seq<u8>, b: Seq<u8>) -> bool {
    entry_cmp(a, b) == Ordering::Less
}

/// Strictly increasing under `entry_lt`.
pub open spec fn sorted_entries(s: Seq<Seq<u8>>) -> bool {
    forall|p: int, q: int| 0 <= p < q < s.len() ==> entry_lt(#[trigger] s[p], #[trigger] s[q])
}

/// The index of the first element of `s` at or after `from` that is not
/// below `t`; `s.len()` when there is none.
pub open spec fn lower_bound_from(s: Seq<Seq<u8>>, t: Seq<u8>, from: int) -> int
    decreases s.len() - from,
{
    if from >= s.len() || from < 0 {
        s.len() as int
    } else if !entry_lt(s[from], t) {
        from
    } else {
        lower_bound_from(s, t, from + 1)
    }
}

/// The index of the first element of `s` that is not below `t`.
pub open spec fn lower_bound(s: Seq<Seq<u8>>, t: Seq<u8>) -> int {
    lower_bound_from(s, t, 0)
}

proof fn lemma_lower_bound_is(s: Seq<Seq<u8>>, t: Seq<u8>, p: int, from: int)
    requires
        0 <= from <= p <= s.len(),
        forall|q: int| from <= q < p ==> entry_lt(#[trigger] s[q], t),
        p < s.len() ==> !entry_lt(s[p], t),
    ensures
        lower_bound_from(s, t, from) == p,
    decreases p - from,
{
    if from < p {
        lemma_lower_bound_is(s, t, p, from + 1);
    }
}

/// Three-way comparison of two buffers by their leading internal keys.
pub fn compare_entries(comparator: &InternalKeyComparator, a: &[u8], b: &[u8]) -> (r: Ordering)
    requires
        valid_target(a@),
        valid_target(b@),
    ensures
        r == entry_cmp(a@, b@),
{
    let (ka, _) = decode_size_prefixed_slice(a).unwrap();
    let (kb, _) = decode_size_prefixed_slice(b).unwrap();
    comparator.compare(ka, kb)
}

/// Orders memtable buffers by the internal keys they begin with.
pub struct MemTableKeyComparator {
    comparator: InternalKeyComparator,
}

impl MemTableKeyComparator {
    pub fn new(comparator: InternalKeyComparator) -> (r: Self) {
        MemTableKeyComparator { comparator }
    }

    /// The internal-key comparator it applies.
    pub fn internal_comparator(&self) -> (r: &InternalKeyComparator) {
        &self.comparator
    }

    /// Three-way comparison of two buffers by their leading internal keys.
    pub fn compare(&self, a: &[u8], b: &[u8]) -> (r: Ordering)
        requires
            valid_target(a@),
            valid_target(b@),
        ensures
            r == entry_cmp(a@, b@),
    {
        compare_entries(&self.comparator, a, b)
    }
}

proof fn lemma_entry_irreflexive(a: Seq<u8>)
    ensures
        !entry_lt(a, a),
{
    lemma_compare_bytes_equal(spec_user_key(entry_key(a)), spec_user_key(entry_key(a)));
}

proof fn lemma_entry_trans(a: Seq<u8>, b: Seq<u8>, c: Seq<u8>)
    requires
        entry_lt(a, b),
        entry_lt(b, c),
    ensures
        entry_lt(a, c),
{
    lemma_compare_internal_trans(entry_key(a), entry_key(b), entry_key(c));
}

proof fn lemma_entry_asym(a: Seq<u8>, b: Seq<u8>)
    requires
        entry_lt(a, b),
    ensures
        !entry_lt(b, a),
{
    lemma_compare_internal_antisym(entry_key(b), entry_key(a));
}

/// Neither below nor equal means above.
proof fn lemma_entry_total(a: Seq<u8>, b: Seq<u8>)
    requires
        !entry_lt(a, b),
        entry_cmp(a, b) != Ordering::Equal,
    ensures
        entry_lt(b, a),
{
    lemma_compare_internal_antisym(entry_key(a), entry_key(b));
}

/// An ordered set of buffers (each led by a length-prefixed internal key),
/// kept as a skip list. Nodes live in flat arrays and link to each other by
/// index; node 0 is the head, with every level.
pub struct SkipList {
    comparator: MemTableKeyComparator,
    keys: Vec<Vec<u8>>,
    heights: Vec<usize>,
    /// `links[i * MAX_HEIGHT + l]`: the successor of node `i` at level `l`.
    links: Vec<Option<usize>>,
    max_height: usize,
    rnd: Random,
    /// The non-head nodes in key order.
    order: Ghost<Seq<usize>>,
    /// `pos[i]`: the place of node `i` in `order`.
    pos: Ghost<Seq<int>>,
}

impl SkipList {
    spec fn n(&self) -> int {
        self.keys@.len() as int
    }

    spec fn link(&self, i: int, l: int) -> Option<usize> {
        self.links@[i * MAX_HEIGHT + l]
    }

    spec fn key(&self, i: int) -> Seq<u8> {
        self.keys@[i]@
    }

    spec fn height(&self, i: int) -> int {
        self.heights@[i] as int
    }

    /// The buffers in the list, in order.
    pub closed spec fn spec_keys(&self) -> Seq<Seq<u8>> {
        self.order@.map_values(|i: usize| self.keys@[i as int]@)
    }

    spec fn link_ok(&self, i: int, l: int) -> bool {
        match self.link(i, l) {
            Some(j) => 1 <= j < self.n() && l < self.height(j as int) && l < self.height(i) && (i
                == 0 || entry_lt(self.key(i), self.key(j as int))),
            None => true,
        }
    }

    /// The structure is consistent: heights, links, and the level-0 order.
    #[verifier::opaque]
    pub closed spec fn wf(&self) -> bool {
        &&& self.n() >= 1
        &&& self.heights@.len() == self.n()
        &&& self.links@.len() == self.n() * MAX_HEIGHT
        &&& self.heights@[0] == MAX_HEIGHT
        &&& 1 <= self.max_height <= MAX_HEIGHT
        &&& self.rnd.wf()
        &&& forall|i: int|
            1 <= i < self.n() ==> 1 <= #[trigger] self.height(i) <= MAX_HEIGHT && valid_target(
                self.key(i),
            )
        &&& forall|i: int, l: int|
            0 <= i < self.n() && 0 <= l < MAX_HEIGHT ==> #[trigger] self.link_ok(i, l)
        &&& forall|l: int| self.max_height <= l < MAX_HEIGHT ==> (#[trigger] self.link(0, l)) is None
        &&& self.order@.len() == self.n() - 1
        &&& self.pos@.len() == self.n()
        &&& forall|q: int|
            0 <= q < self.order@.len() ==> 1 <= #[trigger] self.order@[q] < self.n()
                && self.pos@[self.order@[q] as int] == q
        &&& forall|i: int|
            1 <= i < self.n() ==> 0 <= #[trigger] self.pos@[i] < self.order@.len()
                && self.order@[self.pos@[i]] == i
        &&& forall|p: int, q: int|
            0 <= p < q < self.order@.len() ==> entry_lt(
                self.key(#[trigger] self.order@[p] as int),
                self.key(#[trigger] self.order@[q] as int),
            )
        &&& self.link(0, 0) == (if self.order@.len() == 0 {
            None
        } else {
            Some(self.order@[0])
        })
        &&& forall|q: int|
            0 <= q < self.order@.len() ==> self.link(#[trigger] self.order@[q] as int, 0) == (if q
                + 1 < self.order@.len() {
                Some(self.order@[q + 1])
            } else {
                None
            })
    }

    proof fn lemma_wf(&self)
        requires
            self.wf(),
        ensures
            self.n() >= 1,
            self.heights@.len() == self.n(),
            self.links@.len() == self.n() * MAX_HEIGHT,
            self.heights@[0] == MAX_HEIGHT,
            1 <= self.max_height <= MAX_HEIGHT,
            self.rnd.wf(),
            forall|i: int|
                1 <= i < self.n() ==> 1 <= #[trigger] self.height(i) <= MAX_HEIGHT && valid_target(
                    self.key(i),
                ),
            self.order@.len() == self.n() - 1,
            self.pos@.len() == self.n(),
    {
        reveal(SkipList::wf);
    }

    proof fn lemma_pos(&self, i: int)
        requires
            self.wf(),
            1 <= i < self.n(),
        ensures
            0 <= self.pos@[i] < self.order@.len(),
            self.order@[self.pos@[i]] == i,
    {
        reveal(SkipList::wf);
    }

    proof fn lemma_order(&self, q: int)
        requires
            self.wf(),
            0 <= q < self.order@.len(),
        ensures
            1 <= self.order@[q] < self.n(),
            self.pos@[self.order@[q] as int] == q,
            self.link(self.order@[q] as int, 0) == (if q + 1 < self.order@.len() {
                Some(self.order@[q + 1])
            } else {
                None
            }),
    {
        reveal(SkipList::wf);
    }

    proof fn lemma_sorted(&self, p: int, q: int)
        requires
            self.wf(),
            0 <= p < q < self.order@.len(),
        ensures
            entry_lt(self.key(self.order@[p] as int), self.key(self.order@[q] as int)),
    {
        reveal(SkipList::wf);
    }

    proof fn lemma_head(&self, l: int)
        requires
            self.wf(),
            0 <= l < MAX_HEIGHT,
        ensures
            self.link(0, 0) == (if self.order@.len() == 0 {
                None
            } else {
                Some(self.order@[0])
            }),
            self.max_height <= l ==> self.link(0, l) is None,
    {
        reveal(SkipList::wf);
    }

    proof fn lemma_last(&self, c: int)
        requires
            self.wf(),
            0 <= c < self.n(),
            self.link(c, 0) is None,
        ensures
            self.place(c) + 1 == self.order@.len(),
    {
        reveal(SkipList::wf);
        if c != 0 {
            assert(self.order@[self.pos@[c]] == c);
        }
    }

    proof fn lemma_link(&self, i: int, l: int)
        requires
            self.wf(),
            0 <= i < self.n(),
            0 <= l < MAX_HEIGHT,
        ensures
            self.link_ok(i, l),
    {
        reveal(SkipList::wf);
    }

    /// The place in the order of node `i`; -1 for the head.
    spec fn place(&self, i: int) -> int {
        if i == 0 {
            -1
        } else {
            self.pos@[i]
        }
    }

    proof fn lemma_spec_keys(&self)
        requires
            self.wf(),
        ensures
            self.spec_keys().len() == self.order@.len(),
            forall|q: int|
                0 <= q < self.order@.len() ==> #[trigger] self.spec_keys()[q] == self.key(
                    self.order@[q] as int,
                ),
            sorted_entries(self.spec_keys()),
    {
        reveal(SkipList::wf);
        assert forall|p: int, q: int| 0 <= p < q < self.spec_keys().len() implies entry_lt(
            #[trigger] self.spec_keys()[p],
            #[trigger] self.spec_keys()[q],
        ) by {
            assert(entry_lt(self.key(self.order@[p] as int), self.key(self.order@[q] as int)));
        }
    }

    /// The buffers of a well-formed list are strictly increasing.
    pub proof fn lemma_sorted_keys(&self)
        requires
            self.wf(),
        ensures
            sorted_entries(self.spec_keys()),
    {
        self.lemma_spec_keys();
    }

    /// Every node up to place `pc` (the head is place -1) is below `t` when
    /// node `c` is.
    proof fn lemma_prefix_below(&self, c: int, t: Seq<u8>)
        requires
            self.wf(),
            0 <= c < self.n(),
            c == 0 || entry_lt(self.key(c), t),
        ensures
            forall|q: int|
                0 <= q <= self.place(c) ==> entry_lt(self.key(#[trigger] self.order@[q] as int), t),
    {
        reveal(SkipList::wf);
        assert forall|q: int| 0 <= q <= self.place(c) implies entry_lt(
            self.key(#[trigger] self.order@[q] as int),
            t,
        ) by {
            if q < self.place(c) {
                assert(self.order@[self.pos@[c]] == c);
                lemma_entry_trans(self.key(self.order@[q] as int), self.key(c), t);
            }
        }
    }

    /// Following a link moves forward in the order.
    proof fn lemma_link_forward(&self, i: int, l: int)
        requires
            self.wf(),
            0 <= i < self.n(),
            0 <= l < MAX_HEIGHT,
            self.link(i, l) is Some,
        ensures
            self.place(i) < self.place(self.link(i, l).unwrap() as int) < self.order@.len(),
            1 <= self.link(i, l).unwrap() < self.n(),
    {
        reveal(SkipList::wf);
        assert(self.link_ok(i, l));
        let j = self.link(i, l).unwrap() as int;
        if i != 0 && self.pos@[j] <= self.pos@[i] {
            if self.pos@[j] < self.pos@[i] {
                assert(entry_lt(
                    self.key(self.order@[self.pos@[j]] as int),
                    self.key(self.order@[self.pos@[i]] as int),
                ));
                lemma_entry_asym(self.key(j), self.key(i));
            } else {
                lemma_entry_irreflexive(self.key(i));
            }
        }
    }

    /// An empty list.
    pub fn new(comparator: InternalKeyComparator) -> (r: Self)
        ensures
            r.wf(),
            r.spec_keys() == Seq::<Seq<u8>>::empty(),
    {
        let mut keys: Vec<Vec<u8>> = Vec::new();
        keys.push(Vec::new());
        let mut heights: Vec<usize> = Vec::new();
        heights.push(MAX_HEIGHT);
        let mut links: Vec<Option<usize>> = Vec::new();
        let mut l: usize = 0;
        while l < MAX_HEIGHT
            invariant
                l <= MAX_HEIGHT,
                links@.len() == l,
                forall|k: int| 0 <= k < l ==> links@[k] is None,
            decreases MAX_HEIGHT - l,
        {
            links.push(None);
            l = l + 1;
        }
        let r = SkipList {
            comparator: MemTableKeyComparator::new(comparator),
            keys,
            heights,
            links,
            max_height: 1,
            rnd: Random::new(HEIGHT_SEED),
            order: Ghost(Seq::empty()),
            pos: Ghost(Seq::empty().push(-1int)),
        };
        assert(forall|i: int, l: int| 0 <= i < r.n() && 0 <= l < MAX_HEIGHT ==> #[trigger] r.link_ok(i, l));
        assert(r.spec_keys() =~= Seq::<Seq<u8>>::empty());
        reveal(SkipList::wf);
        r
    }

    /// The comparator that orders the list.
    pub fn key_comparator(&self) -> (r: &MemTableKeyComparator) {
        &self.comparator
    }

    /// The current number of levels in use.
    pub fn get_max_height(&self) -> (r: usize)
        requires
            self.wf(),
        ensures
            1 <= r <= MAX_HEIGHT,
    {
        proof {
            self.lemma_wf();
        }
        self.max_height
    }

    /// Draws a height: 1, then one more level with probability 1/4 each, up to the maximum.
    fn random_height(&mut self) -> (r: usize)
        requires
            old(self).wf(),
        ensures
            final(self).wf(),
            final(self).spec_keys() == old(self).spec_keys(),
            final(self).keys == old(self).keys,
            final(self).links == old(self).links,
            final(self).heights == old(self).heights,
            final(self).max_height == old(self).max_height,
            final(self).order == old(self).order,
            final(self).pos == old(self).pos,
            1 <= r <= MAX_HEIGHT,
    {
        proof {
            old(self).lemma_wf();
        }
        let h = draw_height(&mut self.rnd);
        proof {
            reveal(SkipList::wf);
            assert(self.keys == old(self).keys);
            assert(self.links == old(self).links);
            assert(self.heights == old(self).heights);
            assert(forall|i: int, l: int| 0 <= i < self.n() && 0 <= l < MAX_HEIGHT ==> #[trigger] self.link_ok(i, l)
                == old(self).link_ok(i, l));
            assert(forall|i: int| 0 <= i < self.n() ==> #[trigger] self.height(i) == old(self).height(i));
            assert(forall|i: int| 0 <= i < self.n() ==> #[trigger] self.key(i) == old(self).key(i));
            assert(forall|i: int, l: int| #[trigger] self.link(i, l) == old(self).link(i, l));
        }
        h
    }
}

impl SkipList {
    spec fn prev_ok(&self, c: int, l: int, t: Seq<u8>) -> bool {
        &&& 0 <= c < self.n()
        &&& l < self.height(c)
        &&& (c == 0 || entry_lt(self.key(c), t))
        &&& match self.link(c, l) {
            Some(j) => !entry_lt(self.key(j as int), t),
            None => true,
        }
    }

    /// From a node `c` below `t` whose level-0 successor is not below `t`
    /// (or absent), that successor is the lower bound of `t`.
    proof fn lemma_level0_bound(&self, c: int, t: Seq<u8>)
        requires
            self.wf(),
            self.prev_ok(c, 0, t),
        ensures
            match self.link(c, 0) {
                Some(j) => 1 <= j < self.n() && self.pos@[j as int] == lower_bound(self.spec_keys(), t),
                None => lower_bound(self.spec_keys(), t) == self.order@.len(),
            },
            self.place(c) + 1 == lower_bound(self.spec_keys(), t),
    {
        reveal(SkipList::wf);
        self.lemma_spec_keys();
        self.lemma_prefix_below(c, t);
        let p = self.place(c) + 1;
        if c != 0 {
            assert(self.order@[self.pos@[c]] == c);
        }
        assert forall|q: int| 0 <= q < p implies entry_lt(#[trigger] self.spec_keys()[q], t) by {
            assert(self.spec_keys()[q] == self.key(self.order@[q] as int));
        }
        match self.link(c, 0) {
            Some(j) => {
                assert(p < self.order@.len());
                assert(self.order@[p] == j);
                assert(self.spec_keys()[p] == self.key(j as int));
            },
            None => {
                if p < self.order@.len() {
                    if c != 0 {
                        assert(self.link(self.order@[self.pos@[c]] as int, 0) is Some);
                    }
                }
                assert(p == self.order@.len());
            },
        }
        lemma_lower_bound_is(self.spec_keys(), t, p, 0);
    }

    /// The first node whose buffer is not below `target`, and for each level
    /// in use the last node there that is below it (the head if none is).
    fn find_greater_or_equal(&self, target: &[u8]) -> (r: (Option<usize>, Vec<usize>))
        requires
            self.wf(),
            valid_target(target@),
        ensures
            r.1@.len() == MAX_HEIGHT,
            forall|l: int| 0 <= l < self.max_height ==> self.prev_ok(#[trigger] r.1@[l] as int, l, target@),
            forall|l: int| self.max_height <= l < MAX_HEIGHT ==> #[trigger] r.1@[l] == 0,
            r.0 == self.link(r.1@[0] as int, 0),
            match r.0 {
                Some(j) => 1 <= j < self.n() && self.pos@[j as int] == lower_bound(self.spec_keys(), target@),
                None => lower_bound(self.spec_keys(), target@) == self.order@.len(),
            },
    {
        proof {
            self.lemma_wf();
        }
        let mut prev: Vec<usize> = vec![0usize; MAX_HEIGHT];
        let total_links = self.links.len();
        let mut current: usize = 0;
        let mut level: usize = self.max_height - 1;
        loop
            invariant
                total_links == self.links@.len(),
                self.wf(),
                valid_target(target@),
                current < self.n(),
                self.place(current as int) < self.order@.len(),
                level < self.max_height,
                level < self.height(current as int),
                current == 0 || entry_lt(self.key(current as int), target@),
                prev@.len() == MAX_HEIGHT,
                forall|l: int| level < l < self.max_height ==> self.prev_ok(#[trigger] prev@[l] as int, l, target@),
                forall|l: int| self.max_height <= l < MAX_HEIGHT ==> #[trigger] prev@[l] == 0,
            decreases level, self.n() - self.place(current as int),
        {
            proof {
                self.lemma_wf();
                self.lemma_link(current as int, level as int);
                lemma_index_bound(current as int, level as int, self.n());
            }
            let next = self.links[current * MAX_HEIGHT + level];
            let advance = match next {
                Some(j) => matches!(
                    self.comparator.compare(self.keys[j].as_slice(), target),
                    Ordering::Less
                ),
                None => false,
            };
            if advance {
                proof {
                    self.lemma_link_forward(current as int, level as int);
                }
                current = next.unwrap();
            } else {
                prev.set(level, current);
                if level == 0 {
                    proof {
                        self.lemma_level0_bound(current as int, target@);
                    }
                    return (next, prev);
                }
                level = level - 1;
            }
        }
    }

    /// The last node whose buffer is below `target`; the head if none is.
    fn find_less(&self, target: &[u8]) -> (r: usize)
        requires
            self.wf(),
            valid_target(target@),
        ensures
            self.prev_ok(r as int, 0, target@),
            self.place(r as int) + 1 == lower_bound(self.spec_keys(), target@),
    {
        proof {
            self.lemma_wf();
        }
        let total_links = self.links.len();
        let mut current: usize = 0;
        let mut level: usize = self.max_height - 1;
        loop
            invariant
                total_links == self.links@.len(),
                self.wf(),
                valid_target(target@),
                current < self.n(),
                self.place(current as int) < self.order@.len(),
                level < self.max_height,
                level < self.height(current as int),
                current == 0 || entry_lt(self.key(current as int), target@),
            decreases level, self.n() - self.place(current as int),
        {
            proof {
                self.lemma_wf();
                self.lemma_link(current as int, level as int);
                lemma_index_bound(current as int, level as int, self.n());
            }
            let next = self.links[current * MAX_HEIGHT + level];
            let advance = match next {
                Some(j) => matches!(
                    self.comparator.compare(self.keys[j].as_slice(), target),
                    Ordering::Less
                ),
                None => false,
            };
            if advance {
                proof {
                    self.lemma_link_forward(current as int, level as int);
                }
                current = next.unwrap();
            } else {
                if level == 0 {
                    proof {
                        self.lemma_level0_bound(current as int, target@);
                    }
                    return current;
                }
                level = level - 1;
            }
        }
    }

    /// The last node; the head if the list is empty.
    fn find_last(&self) -> (r: usize)
        requires
            self.wf(),
        ensures
            r < self.n(),
            self.place(r as int) + 1 == self.order@.len(),
    {
        proof {
            self.lemma_wf();
        }
        let total_links = self.links.len();
        let mut current: usize = 0;
        let mut level: usize = self.max_height - 1;
        loop
            invariant
                total_links == self.links@.len(),
                self.wf(),
                current < self.n(),
                self.place(current as int) < self.order@.len(),
                level < self.max_height,
                level < self.height(current as int),
            decreases level, self.n() - self.place(current as int),
        {
            proof {
                self.lemma_wf();
                self.lemma_link(current as int, level as int);
                lemma_index_bound(current as int, level as int, self.n());
            }
            let next = self.links[current * MAX_HEIGHT + level];
            match next {
                Some(j) => {
                    proof {
                        self.lemma_link_forward(current as int, level as int);
                    }
                    current = j;
                },
                None => {
                    if level == 0 {
                        proof {
                            self.lemma_last(current as int);
                        }
                        return current;
                    }
                    level = level - 1;
                },
            }
        }
    }

    /// True iff the list holds a buffer that compares equal to `key`.
    pub fn contains(&self, key: &[u8]) -> (r: bool)
        requires
            self.wf(),
            valid_target(key@),
        ensures
            r == exists|q: int|
                0 <= q < self.spec_keys().len() && entry_cmp(#[trigger] self.spec_keys()[q], key@)
                    == Ordering::Equal,
    {
        let (found, _) = self.find_greater_or_equal(key);
        proof {
            self.lemma_spec_keys();
            self.lemma_wf();
        }
        match found {
            Some(j) => {
                proof {
                    assert(self.height(j as int) >= 1);
                }
                let r = matches!(
                    self.comparator.compare(self.keys[j].as_slice(), key),
                    Ordering::Equal
                );
                proof {
                    let p = lower_bound(self.spec_keys(), key@);
                    self.lemma_pos(j as int);
                    assert(self.height(j as int) >= 1);
                    assert(self.spec_keys()[p] == self.key(j as int));
                    if !r {
                        self.lemma_no_equal(key@);
                    }
                }
                r
            },
            None => {
                proof {
                    self.lemma_no_equal(key@);
                }
                false
            },
        }
    }

    /// Only the lower bound of `t` can compare equal to it.
    proof fn lemma_no_equal(&self, t: Seq<u8>)
        requires
            self.wf(),
            valid_target(t),
            ({
                let p = lower_bound(self.spec_keys(), t);
                p < self.spec_keys().len() ==> entry_cmp(self.spec_keys()[p], t) != Ordering::Equal
            }),
        ensures
            forall|q: int|
                0 <= q < self.spec_keys().len() ==> entry_cmp(#[trigger] self.spec_keys()[q], t)
                    != Ordering::Equal,
    {
        reveal(SkipList::wf);
        self.lemma_spec_keys();
        let s = self.spec_keys();
        let p = lower_bound(s, t);
        lemma_lower_bound_facts(s, t, 0);
        assert forall|q: int| 0 <= q < s.len() implies entry_cmp(#[trigger] s[q], t) != Ordering::Equal by {
            if q < p {
                assert(entry_lt(s[q], t));
            } else if q > p {
                assert(!entry_lt(s[p], t));
                assert(entry_lt(s[p], s[q]));
                if entry_cmp(s[q], t) == Ordering::Equal {
                    lemma_entry_equal_right(s[p], s[q], t);
                }
            }
        }
    }
}

impl SkipList {
    /// Adds `key`, which no buffer in the list compares equal to.
    pub fn insert(&mut self, key: Vec<u8>)
        requires
            old(self).wf(),
            valid_target(key@),
            forall|q: int|
                0 <= q < old(self).spec_keys().len() ==> entry_cmp(
                    #[trigger] old(self).spec_keys()[q],
                    key@,
                ) != Ordering::Equal,
            old(self).spec_keys().len() + 2 <= usize::MAX / MAX_HEIGHT,
        ensures
            final(self).wf(),
            final(self).spec_keys() == old(self).spec_keys().insert(
                lower_bound(old(self).spec_keys(), key@),
                key@,
            ),
    {
        proof {
            old(self).lemma_wf();
            old(self).lemma_spec_keys();
        }
        let (_, prev) = self.find_greater_or_equal(key.as_slice());
        proof {
            self.lemma_level0_bound(prev@[0] as int, key@);
        }
        let height = self.random_height();
        let ghost s0 = *self;
        let ghost key_view = key@;
        let old_max = self.max_height;
        if height > old_max {
            self.max_height = height;
        }
        let n = self.keys.len();
        self.keys.push(key);
        self.heights.push(height);
        let ghost keys1 = self.keys@;
        let ghost heights1 = self.heights@;
        let ghost max1 = self.max_height;
        assert(keys1[n as int]@ == key_view);
        assert(forall|j: int| 0 <= j < n ==> #[trigger] keys1[j] == s0.keys@[j]);
        assert(heights1 == s0.heights@.push(height));
        let mut l: usize = 0;
        while l < MAX_HEIGHT
            invariant
                l <= MAX_HEIGHT,
                self.links@.len() == n * MAX_HEIGHT + l,
                forall|k: int| 0 <= k < n * MAX_HEIGHT ==> self.links@[k] == s0.links@[k],
                forall|k: int| n * MAX_HEIGHT <= k < n * MAX_HEIGHT + l ==> self.links@[k] is None,
                s0.links@.len() == n * MAX_HEIGHT,
                n + 1 <= usize::MAX / MAX_HEIGHT,
                self.keys@ == keys1,
                self.heights@ == heights1,
                self.max_height == max1,
                self.rnd == s0.rnd,
            decreases MAX_HEIGHT - l,
        {
            self.links.push(None);
            l = l + 1;
        }
        proof {
            assert forall|j: int, l: int| 0 <= j <= n && 0 <= l < MAX_HEIGHT implies #[trigger] self.link(j, l)
                == old_link_after(&s0, prev@, n as int, 0, j, l) by {
                lemma_index_bound(j, l, n + 1);
                if j < n {
                    lemma_index_bound(j, l, n as int);
                } else {
                    lemma_index_bound(0, l, 1);
                }
            }
        }
        let mut i: usize = 0;
        while i < height
            invariant
                0 <= i <= height <= MAX_HEIGHT,
                n == s0.n(),
                n + 1 <= usize::MAX / MAX_HEIGHT,
                self.keys@ == keys1,
                self.heights@ == heights1,
                self.max_height == max1,
                self.rnd == s0.rnd,
                self.links@.len() == (n + 1) * MAX_HEIGHT,
                prev@.len() == MAX_HEIGHT,
                forall|l: int| 0 <= l < MAX_HEIGHT ==> 0 <= #[trigger] prev@[l] < n,
                forall|j: int, l: int|
                    0 <= j <= n && 0 <= l < MAX_HEIGHT ==> #[trigger] self.link(j, l)
                        == old_link_after(&s0, prev@, n as int, i as int, j, l),
            decreases height - i,
        {
            let p = prev[i];
            proof {
                lemma_index_bound(p as int, i as int, n + 1);
                lemma_index_bound(n as int, i as int, n + 1);
            }
            let ghost pre = *self;
            let nx = self.links[p * MAX_HEIGHT + i];
            self.links.set(n * MAX_HEIGHT + i, nx);
            self.links.set(p * MAX_HEIGHT + i, Some(n));
            proof {
                assert(pre.link(p as int, i as int) == old_link_after(&s0, prev@, n as int, i as int, p as int, i as int));
                assert forall|j: int, l: int| 0 <= j <= n && 0 <= l < MAX_HEIGHT implies #[trigger] self.link(j, l) == old_link_after(&s0, prev@, n as int, i + 1, j, l) by {
                    lemma_index_bound(j, l, n + 1);
                    if j != p || l != i {
                        lemma_index_distinct(j, l, p as int, i as int);
                    }
                    if j != n || l != i {
                        lemma_index_distinct(j, l, n as int, i as int);
                    }
                    assert(pre.link(j, l) == old_link_after(&s0, prev@, n as int, i as int, j, l));
                }
            }
            i = i + 1;
        }
        let ghost s2 = *self;
        let ghost k = s0.place(prev@[0] as int) + 1;
        self.order = Ghost(s0.order@.insert(k, n));
        self.pos = Ghost(shift_pos(s0.pos@, k, n as int));
        proof {
            assert forall|c: int, l: int| #[trigger] s0.prev_ok(c, l, key_view) == old(self).prev_ok(c, l, key_view) by {}
            assert(s0.place(prev@[0] as int) == old(self).place(prev@[0] as int));
            s0.lemma_spec_keys();
            assert forall|q: int| 0 <= q < s0.order@.len() implies entry_cmp(s0.key(#[trigger] s0.order@[q] as int), key_view)
                != Ordering::Equal by {
                assert(s0.spec_keys()[q] == s0.key(s0.order@[q] as int));
            }
            assert(self.heights@ == s0.heights@.push(height));
            assert(self.rnd == s0.rnd);
            s0.lemma_wf();
            assert(self.key(n as int) == key_view);
            assert(forall|j: int| 0 <= j < n ==> #[trigger] self.keys@[j] == s0.keys@[j]);
            assert forall|j: int, l: int| 0 <= j <= n && 0 <= l < MAX_HEIGHT implies #[trigger] self.link(j, l)
                == old_link_after(&s0, prev@, n as int, height as int, j, l) by {
                assert(self.link(j, l) == s2.link(j, l));
            }
            lemma_insert_wf(&s0, self, prev@, height as int, k);
        }
    }
}

/// `s1` is `s0` with one more node (index `s0.n()`, height `h`), spliced
/// after `prev[l]` at each level `l < h` and placed at `k` in the order.
spec fn insert_pre(s0: &SkipList, s1: &SkipList, prev: Seq<usize>, h: int, k: int) -> bool {
    let n = s0.n();
    let key = s1.key(n);
    &&& s0.wf()
    &&& n + 1 < usize::MAX
    &&& valid_target(key)
    &&& forall|q: int|
        0 <= q < s0.order@.len() ==> entry_cmp(s0.key(#[trigger] s0.order@[q] as int), key)
            != Ordering::Equal
    &&& prev.len() == MAX_HEIGHT
    &&& forall|l: int| 0 <= l < s0.max_height ==> s0.prev_ok(#[trigger] prev[l] as int, l, key)
    &&& forall|l: int| s0.max_height <= l < MAX_HEIGHT ==> #[trigger] prev[l] == 0
    &&& k == s0.place(prev[0] as int) + 1
    &&& s1.n() == n + 1
    &&& forall|j: int| 0 <= j < n ==> #[trigger] s1.keys@[j] == s0.keys@[j]
    &&& s1.heights@ == s0.heights@.push(h as usize)
    &&& 1 <= h <= MAX_HEIGHT
    &&& s1.max_height == (if h > s0.max_height {
        h as usize
            } else {
        s0.max_height
            })
    &&& s1.rnd.wf()
    &&& s1.links@.len() == (n + 1) * MAX_HEIGHT
    &&& forall|j: int, l: int|
        0 <= j <= n && 0 <= l < MAX_HEIGHT ==> #[trigger] s1.link(j, l) == old_link_after(
            s0,
            prev,
            n,
            h,
            j,
            l,
        )
    &&& s1.order@ == s0.order@.insert(k, n as usize)
    &&& s1.pos@ == shift_pos(s0.pos@, k, n)
}

proof fn lemma_insert_links(s0: &SkipList, s1: &SkipList, prev: Seq<usize>, h: int, k: int)
    requires
        insert_pre(s0, s1, prev, h, k),
    ensures
        forall|i: int|
            1 <= i < s1.n() ==> 1 <= #[trigger] s1.height(i) <= MAX_HEIGHT && valid_target(s1.key(i)),
        forall|j: int, l: int| 0 <= j < s1.n() && 0 <= l < MAX_HEIGHT ==> #[trigger] s1.link_ok(j, l),
        forall|l: int| s1.max_height <= l < MAX_HEIGHT ==> (#[trigger] s1.link(0, l)) is None,
{
    s0.lemma_wf();
    let n = s0.n();
    let key = s1.key(n);
    assert forall|j: int| 0 <= j < n implies #[trigger] s1.key(j) == s0.key(j) by {
        assert(s1.keys@[j] == s0.keys@[j]);
    }
    // heights and keys of nodes
    assert forall|i: int| 1 <= i < s1.n() implies 1 <= #[trigger] s1.height(i) <= MAX_HEIGHT
        && valid_target(s1.key(i)) by {
        if i < n {
            assert(s0.height(i) == s1.height(i));
        }
    }
    // links
    assert forall|j: int, l: int| 0 <= j < s1.n() && 0 <= l < MAX_HEIGHT implies #[trigger] s1.link_ok(j, l) by {
        if j == n {
            if l < h {
                let p = prev[l] as int;
                if l < s0.max_height {
                    assert(s0.prev_ok(p, l, key));
                    s0.lemma_link(p, l);
                    match s0.link(p, l) {
                        Some(d) => {
                            s0.lemma_pos(d as int);
                            let q = s0.pos@[d as int];
                            assert(entry_cmp(s0.key(s0.order@[q] as int), key) != Ordering::Equal);
                            lemma_entry_total(s0.key(d as int), key);
                            assert(s1.height(d as int) == s0.height(d as int));
                        },
                        None => {},
                    }
                } else {
                    assert(p == 0);
                    s0.lemma_head(l);
                }
            }
        } else {
            s0.lemma_link(j, l);
            if l < h && j == prev[l] {
                if l < s0.max_height {
                    assert(s0.prev_ok(j, l, key));
                } else {
                    assert(j == 0);
                }
            } else {
                match s0.link(j, l) {
                    Some(d) => {
                        assert(s1.height(d as int) == s0.height(d as int));
                    },
                    None => {},
                }
            }
            if j > 0 {
                assert(s1.height(j) == s0.height(j));
            }
        }
    }
    assert forall|l: int| s1.max_height <= l < MAX_HEIGHT implies (#[trigger] s1.link(0, l)) is None by {
        assert(s1.link(0, l) == s0.link(0, l));
        s0.lemma_head(l);
    }
}

/// Facts about the new node's place `k`: it lies in `0..=len`, the nodes
/// before it are below the key and the nodes from it on are above it.
proof fn lemma_insert_place(s0: &SkipList, s1: &SkipList, prev: Seq<usize>, h: int, k: int)
    requires
        insert_pre(s0, s1, prev, h, k),
    ensures
        0 <= k <= s0.order@.len(),
        forall|q: int| 0 <= q < k ==> entry_lt(s0.key(#[trigger] s0.order@[q] as int), s1.key(s0.n())),
        forall|q: int|
            k <= q < s0.order@.len() ==> entry_lt(s1.key(s0.n()), s0.key(#[trigger] s0.order@[q] as int)),
        forall|j: int| 0 <= j < s0.n() ==> #[trigger] s1.key(j) == s0.key(j),
        prev[0] == 0 <==> k == 0,
        k > 0 ==> s0.order@[k - 1] == prev[0],
{
    s0.lemma_wf();
    let n = s0.n();
    let key = s1.key(n);
    let c = prev[0] as int;
    assert(s0.prev_ok(c, 0, key));
    assert forall|j: int| 0 <= j < n implies #[trigger] s1.key(j) == s0.key(j) by {
        assert(s1.keys@[j] == s0.keys@[j]);
    }
    s0.lemma_prefix_below(c, key);
    if c != 0 {
        s0.lemma_pos(c);
    }
    s0.lemma_head(0);
    assert forall|q: int| k <= q < s0.order@.len() implies entry_lt(key, s0.key(#[trigger] s0.order@[q] as int)) by {
        let d = s0.order@[k] as int;
        if c != 0 {
            s0.lemma_order(k - 1);
        }
        assert(!entry_lt(s0.key(d), key));
        assert(entry_cmp(s0.key(s0.order@[k] as int), key) != Ordering::Equal);
        lemma_entry_total(s0.key(d), key);
        if q > k {
            s0.lemma_sorted(k, q);
            lemma_entry_trans(key, s0.key(d), s0.key(s0.order@[q] as int));
        }
    }
}

proof fn lemma_insert_bijection(s0: &SkipList, s1: &SkipList, prev: Seq<usize>, h: int, k: int)
    requires
        insert_pre(s0, s1, prev, h, k),
        0 <= k <= s0.order@.len(),
    ensures
        forall|q: int|
            0 <= q < s1.order@.len() ==> 1 <= #[trigger] s1.order@[q] < s1.n()
                && s1.pos@[s1.order@[q] as int] == q,
        forall|i: int|
            1 <= i < s1.n() ==> 0 <= #[trigger] s1.pos@[i] < s1.order@.len()
                && s1.order@[s1.pos@[i]] == i,
{
    s0.lemma_wf();
    let n = s0.n();
    let o0 = s0.order@;
    let o1 = s1.order@;
    assert(o1 == o0.insert(k, n as usize));
    assert(o1.len() == o0.len() + 1);
    assert(s1.pos@ == shift_pos(s0.pos@, k, n));
    assert(s1.pos@.len() == n + 1);
    assert(s1.n() == n + 1);
    assert forall|q: int| 0 <= q < o1.len() implies 1 <= #[trigger] o1[q] < s1.n() && s1.pos@[o1[q] as int] == q by {
        if q < k {
            assert(o1[q] == o0[q]);
            s0.lemma_order(q);
            assert(s1.pos@[o0[q] as int] == q);
        } else if q > k {
            assert(o1[q] == o0[q - 1]);
            s0.lemma_order(q - 1);
        }
    }
    assert forall|i: int| 1 <= i < s1.n() implies 0 <= #[trigger] s1.pos@[i] < o1.len() && o1[s1.pos@[i]] == i by {
        if i < n {
            s0.lemma_pos(i);
        }
    }
}

proof fn lemma_insert_sorted(s0: &SkipList, s1: &SkipList, prev: Seq<usize>, h: int, k: int)
    requires
        insert_pre(s0, s1, prev, h, k),
        0 <= k <= s0.order@.len(),
        forall|q: int| 0 <= q < k ==> entry_lt(s0.key(#[trigger] s0.order@[q] as int), s1.key(s0.n())),
        forall|q: int|
            k <= q < s0.order@.len() ==> entry_lt(s1.key(s0.n()), s0.key(#[trigger] s0.order@[q] as int)),
        forall|j: int| 0 <= j < s0.n() ==> #[trigger] s1.key(j) == s0.key(j),
    ensures
        forall|p: int, q: int|
            0 <= p < q < s1.order@.len() ==> entry_lt(
                s1.key(#[trigger] s1.order@[p] as int),
                s1.key(#[trigger] s1.order@[q] as int),
            ),
{
    s0.lemma_wf();
    let n = s0.n();
    let key = s1.key(n);
    let o0 = s0.order@;
    let o1 = s1.order@;
    assert forall|p: int, q: int| 0 <= p < q < o1.len() implies entry_lt(
        s1.key(#[trigger] o1[p] as int),
        s1.key(#[trigger] o1[q] as int),
    ) by {
        if q < k {
            s0.lemma_sorted(p, q);
            s0.lemma_order(p);
            s0.lemma_order(q);
        } else if q == k {
            s0.lemma_order(p);
            assert(entry_lt(s0.key(o0[p] as int), key));
        } else if p < k {
            s0.lemma_order(p);
            s0.lemma_order(q - 1);
            assert(entry_lt(s0.key(o0[p] as int), key));
            assert(entry_lt(key, s0.key(o0[q - 1] as int)));
            lemma_entry_trans(s0.key(o0[p] as int), key, s0.key(o0[q - 1] as int));
        } else if p == k {
            s0.lemma_order(q - 1);
            assert(entry_lt(key, s0.key(o0[q - 1] as int)));
        } else {
            s0.lemma_order(p - 1);
            s0.lemma_order(q - 1);
            s0.lemma_sorted(p - 1, q - 1);
        }
    }
}

proof fn lemma_insert_chain(s0: &SkipList, s1: &SkipList, prev: Seq<usize>, h: int, k: int)
    requires
        insert_pre(s0, s1, prev, h, k),
        0 <= k <= s0.order@.len(),
        prev[0] == 0 <==> k == 0,
        k > 0 ==> s0.order@[k - 1] == prev[0],
    ensures
        s1.link(0, 0) == (if s1.order@.len() == 0 {
            None
        } else {
            Some(s1.order@[0])
        }),
        forall|q: int|
            0 <= q < s1.order@.len() ==> s1.link(#[trigger] s1.order@[q] as int, 0) == (if q
                + 1 < s1.order@.len() {
                Some(s1.order@[q + 1])
            } else {
                None
            }),
{
    s0.lemma_wf();
    s0.lemma_head(0);
    let n = s0.n();
    let c = prev[0] as int;
    let o0 = s0.order@;
    let o1 = s1.order@;
    assert(s1.link(0, 0) == old_link_after(s0, prev, n, h, 0, 0));
    assert forall|q: int| 0 <= q < o1.len() implies s1.link(#[trigger] o1[q] as int, 0) == (if q + 1 < o1.len() {
        Some(o1[q + 1])
    } else {
        None
    }) by {
        if q < k - 1 {
            assert(o1[q] == o0[q]);
            s0.lemma_order(q);
            s0.lemma_order(k - 1);
            assert(o0[q] != c);
        } else if q == k - 1 {
            assert(o1[q] == c);
        } else if q == k {
            if k > 0 {
                s0.lemma_order(k - 1);
            }
        } else {
            assert(o1[q] == o0[q - 1]);
            s0.lemma_order(q - 1);
            if k > 0 {
                s0.lemma_order(k - 1);
            }
            assert(o0[q - 1] != c);
        }
    }
}

proof fn lemma_insert_keys(s0: &SkipList, s1: &SkipList, prev: Seq<usize>, h: int, k: int)
    requires
        insert_pre(s0, s1, prev, h, k),
        0 <= k <= s0.order@.len(),
        forall|j: int| 0 <= j < s0.n() ==> #[trigger] s1.key(j) == s0.key(j),
    ensures
        s1.spec_keys() == s0.spec_keys().insert(k, s1.key(s0.n())),
{
    s0.lemma_wf();
    let o0 = s0.order@;
    let o1 = s1.order@;
    let key = s1.key(s0.n());
    assert(s1.spec_keys() =~= s0.spec_keys().insert(k, key)) by {
        assert forall|q: int| 0 <= q < o1.len() implies #[trigger] s1.spec_keys()[q] == s0.spec_keys().insert(k, key)[q] by {
            if q < k {
                assert(o1[q] == o0[q]);
                s0.lemma_order(q);
            } else if q > k {
                assert(o1[q] == o0[q - 1]);
                s0.lemma_order(q - 1);
            }
        }
    }
}

proof fn lemma_insert_wf(s0: &SkipList, s1: &SkipList, prev: Seq<usize>, h: int, k: int)
    requires
        insert_pre(s0, s1, prev, h, k),
    ensures
        s1.wf(),
        s1.spec_keys() == s0.spec_keys().insert(k, s1.key(s0.n())),
{
    lemma_insert_links(s0, s1, prev, h, k);
    lemma_insert_place(s0, s1, prev, h, k);
    lemma_insert_bijection(s0, s1, prev, h, k);
    lemma_insert_sorted(s0, s1, prev, h, k);
    lemma_insert_chain(s0, s1, prev, h, k);
    lemma_insert_keys(s0, s1, prev, h, k);
    s0.lemma_wf();
    reveal(SkipList::wf);
}

/// The links of node `j` at level `l` once levels below `i` are spliced.
spec fn old_link_after(s0: &SkipList, prev: Seq<usize>, n: int, i: int, j: int, l: int) -> Option<usize> {
    if j < n {
        if l < i && j == prev[l] {
            Some(n as usize)
        } else {
            s0.link(j, l)
        }
    } else if l < i {
        s0.link(prev[l] as int, l)
    } else {
        None
    }
}

/// Places after inserting node `n` at place `k`.
spec fn shift_pos(pos: Seq<int>, k: int, n: int) -> Seq<int> {
    Seq::new((n + 1) as nat, |i: int| if i == n {
        k
    } else if i == 0 {
        -1
    } else if pos[i] >= k {
        pos[i] + 1
    } else {
        pos[i]
    })
}

proof fn lemma_index_distinct(j: int, l: int, p: int, i: int)
    requires
        0 <= l < MAX_HEIGHT,
        0 <= i < MAX_HEIGHT,
        j != p || l != i,
    ensures
        j * MAX_HEIGHT + l != p * MAX_HEIGHT + i,
{
    if j == p {
    } else if j < p {
        assert(j * MAX_HEIGHT + l < p * MAX_HEIGHT + i) by (nonlinear_arith)
            requires j < p, 0 <= l < 12, 0 <= i < 12;
    } else {
        assert(j * MAX_HEIGHT + l > p * MAX_HEIGHT + i) by (nonlinear_arith)
            requires j > p, 0 <= l < 12, 0 <= i < 12;
    }
}

/// Below the lower bound everything is below `t`; at it, nothing is.
pub proof fn lemma_lower_bound_facts(s: Seq<Seq<u8>>, t: Seq<u8>, from: int)
    requires
        0 <= from <= s.len(),
    ensures
        from <= lower_bound_from(s, t, from) <= s.len(),
        forall|q: int| from <= q < lower_bound_from(s, t, from) ==> entry_lt(#[trigger] s[q], t),
        lower_bound_from(s, t, from) < s.len() ==> !entry_lt(s[lower_bound_from(s, t, from)], t),
    decreases s.len() - from,
{
    if from < s.len() && entry_lt(s[from], t) {
        lemma_lower_bound_facts(s, t, from + 1);
    }
}

/// If `a < b` and `b` compares equal to `t`, then `a < t`.
proof fn lemma_entry_equal_right(a: Seq<u8>, b: Seq<u8>, t: Seq<u8>)
    requires
        entry_lt(a, b),
        entry_cmp(b, t) == Ordering::Equal,
    ensures
        entry_lt(a, t),
{
    let (ka, kb, kt) = (entry_key(a), entry_key(b), entry_key(t));
    lemma_compare_bytes_equal(spec_user_key(kb), spec_user_key(kt));
    lemma_compare_bytes_equal(spec_user_key(ka), spec_user_key(kb));
    lemma_compare_bytes_equal(spec_user_key(ka), spec_user_key(kt));
}

proof fn lemma_index_bound(i: int, l: int, n: int)
    requires
        0 <= i < n,
        0 <= l < MAX_HEIGHT,
    ensures
        0 <= i * MAX_HEIGHT + l < n * MAX_HEIGHT,
{
    assert(i * MAX_HEIGHT + l < n * MAX_HEIGHT) by (nonlinear_arith)
        requires
            0 <= i < n,
            0 <= l < 12,
    ;
}

fn draw_height(rnd: &mut Random) -> (r: usize)
    requires
        old(rnd).wf(),
    ensures
        final(rnd).wf(),
        1 <= r <= MAX_HEIGHT,
{
    let mut height: usize = 1;
    while height < MAX_HEIGHT && rnd.one_in(BRANCHING)
        invariant
            1 <= height <= MAX_HEIGHT,
            rnd.wf(),
        decreases MAX_HEIGHT - height,
    {
        height = height + 1;
    }
    height
}

} // verus!

verus! {

/// A cursor over a skip list: at one of its buffers, or not valid.
pub struct SkipListIterator<'a> {
    list: &'a SkipList,
    node: Option<usize>,
}

impl<'a> SkipListIterator<'a> {
    /// The buffers of the list walked over.
    pub closed spec fn keys(&self) -> Seq<Seq<u8>> {
        self.list.spec_keys()
    }

    /// Where the cursor is: an index into `keys()`, or `None` when not valid.
    pub closed spec fn position(&self) -> Option<int> {
        match self.node {
            Some(j) => Some(self.list.pos@[j as int]),
            None => None,
        }
    }

    pub closed spec fn wf(&self) -> bool {
        &&& self.list.wf()
        &&& match self.node {
            Some(j) => 1 <= j < self.list.n(),
            None => true,
        }
    }

    /// A cursor that is not yet valid.
    pub fn new(list: &'a SkipList) -> (r: Self)
        requires
            list.wf(),
        ensures
            r.wf(),
            r.keys() == list.spec_keys(),
            r.position() is None,
    {
        SkipListIterator { list, node: None }
    }

    /// True iff the cursor is at a buffer.
    pub fn valid(&self) -> (r: bool)
        ensures
            r == self.position() is Some,
    {
        self.node.is_some()
    }

    /// The buffer under the cursor.
    pub fn key(&self) -> (r: &'a [u8])
        requires
            self.wf(),
            self.position() is Some,
        ensures
            0 <= self.position().unwrap() < self.keys().len(),
            r@ == self.keys()[self.position().unwrap()],
    {
        let j = self.node.unwrap();
        proof {
            self.list.lemma_pos(j as int);
            self.list.lemma_spec_keys();
        }
        self.list.keys[j].as_slice()
    }

    /// Moves to the next buffer; past the last one the cursor is not valid.
    pub fn next(&mut self)
        requires
            old(self).wf(),
            old(self).position() is Some,
        ensures
            final(self).wf(),
            final(self).keys() == old(self).keys(),
            final(self).position() == (if old(self).position().unwrap() + 1 < old(self).keys().len() {
                Some(old(self).position().unwrap() + 1)
            } else {
                None::<int>
            }),
    {
        let j = self.node.unwrap();
        proof {
            self.list.lemma_wf();
            self.list.lemma_pos(j as int);
            self.list.lemma_order(self.list.pos@[j as int]);
            self.list.lemma_spec_keys();
            lemma_index_bound(j as int, 0, self.list.n());
            if self.list.pos@[j as int] + 1 < self.list.order@.len() {
                self.list.lemma_order(self.list.pos@[j as int] + 1);
            }
        }
        let _total = self.list.links.len();
        self.node = self.list.links[j * MAX_HEIGHT];
    }

    /// Moves to the previous buffer; before the first one the cursor is not valid.
    pub fn prev(&mut self)
        requires
            old(self).wf(),
            old(self).position() is Some,
        ensures
            final(self).wf(),
            final(self).keys() == old(self).keys(),
            final(self).position() == (if old(self).position().unwrap() > 0 {
                Some(old(self).position().unwrap() - 1)
            } else {
                None::<int>
            }),
    {
        let j = self.node.unwrap();
        proof {
            self.list.lemma_wf();
            self.list.lemma_pos(j as int);
            self.list.lemma_spec_keys();
            assert(self.list.height(j as int) >= 1);
        }
        let target = self.list.keys[j].as_slice();
        let c = self.list.find_less(target);
        proof {
            let s = self.list.spec_keys();
            let p = self.list.pos@[j as int];
            lemma_entry_irreflexive(s[p]);
            assert forall|q: int| 0 <= q < p implies entry_lt(#[trigger] s[q], s[p]) by {}
            lemma_lower_bound_is(s, target@, p, 0);
            if c != 0 {
                self.list.lemma_pos(c as int);
                self.list.lemma_order(self.list.pos@[c as int]);
            }
        }
        if c == 0 {
            self.node = None;
        } else {
            self.node = Some(c);
        }
    }

    /// Moves to the first buffer not below `target`.
    pub fn seek(&mut self, target: &[u8])
        requires
            old(self).wf(),
            valid_target(target@),
        ensures
            final(self).wf(),
            final(self).keys() == old(self).keys(),
            final(self).position() == (if lower_bound(old(self).keys(), target@) < old(self).keys().len() {
                Some(lower_bound(old(self).keys(), target@))
            } else {
                None::<int>
            }),
    {
        let (found, _) = self.list.find_greater_or_equal(target);
        proof {
            self.list.lemma_spec_keys();
            self.list.lemma_wf();
            if found is Some {
                self.list.lemma_pos(found.unwrap() as int);
            }
        }
        self.node = found;
    }

    /// Moves to the first buffer, if any.
    pub fn seek_to_first(&mut self)
        requires
            old(self).wf(),
        ensures
            final(self).wf(),
            final(self).keys() == old(self).keys(),
            final(self).position() == (if old(self).keys().len() > 0 {
                Some(0int)
            } else {
                None::<int>
            }),
    {
        proof {
            self.list.lemma_wf();
            self.list.lemma_head(0);
            self.list.lemma_spec_keys();
            if self.list.order@.len() > 0 {
                self.list.lemma_order(0);
            }
        }
        self.node = self.list.links[0];
    }

    /// Moves to the last buffer, if any.
    pub fn seek_to_last(&mut self)
        requires
            old(self).wf(),
        ensures
            final(self).wf(),
            final(self).keys() == old(self).keys(),
            final(self).position() == (if old(self).keys().len() > 0 {
                Some(old(self).keys().len() - 1)
            } else {
                None::<int>
            }),
    {
        let c = self.list.find_last();
        proof {
            self.list.lemma_wf();
            self.list.lemma_spec_keys();
            if c != 0 {
                self.list.lemma_pos(c as int);
            }
        }
        if c == 0 {
            self.node = None;
        } else {
            self.node = Some(c);
        }
    }
}

} // verus!
