//! A semantic search library: an approximate nearest-neighbour index over
//! integer-quantised embedding vectors, ordered by a cheap scalar projection.
//!
//! Embedding components are fixed-point integers: a real-valued component x is
//! stored as the 32-bit integer nearest to `x * EMBEDDING_SCALE`, so the dot
//! product of two stored embeddings carries a factor of `SIMILARITY_SCALE`.

use vstd::prelude::*;
use vstd::pervasive::VecAdditionalExecFns;

pub mod byte_conversion;
pub mod vector;

use crate::byte_conversion::{
    be_bytes, be_value, decode_be, encode_be, lemma_be_bytes_len, lemma_be_bytes_of_value,
    copy_range, lemma_be_value_of_bytes, pow256, ByteConversion, FormatError,
};
use crate::vector::{dot_seq, lemma_dot_seq_bound, Dot};
use vstd::arithmetic::div_mod::{lemma_div_multiples_vanish, lemma_mod_multiples_basic};

verus! {

/// Number of components of every embedding an index holds.
pub const DIMENSION: usize = 384;

/// Scale at which a real embedding component is stored as an integer.
pub const EMBEDDING_SCALE: i32 = 1024;

/// Scale of a similarity score between two stored embeddings: the square of
/// `EMBEDDING_SCALE`.
pub const SIMILARITY_SCALE: i128 = 1048576;

/// A probe ring whose best similarity falls at least this far below the
/// running best ends the expanding scan: one tenth of `SIMILARITY_SCALE`.
pub const TOLERANCE: i128 = 104857;

/// The least similarity a candidate must reach to count as a match: one half
/// of `SIMILARITY_SCALE`.
pub const EMBEDDING_MINIMUM: i128 = 524288;

/// No similarity of two embeddings of `DIMENSION` components leaves this
/// range: `DIMENSION * 2^62`.
pub const SIMILARITY_LIMIT: i128 = 0x6000000000000000000;

/// The error returned when a removal names an entry that does not exist.
#[derive(Clone, Copy, Debug, PartialEq, Eq, Structural)]
pub struct IndexOutOfRange;

/// Whether an ordered-index sequence is sorted ascending by projection.
pub open spec fn projections_sorted(s: Seq<(usize, i128)>) -> bool {
    forall|i: int, j: int| 0 <= i < j < s.len() ==> s[i].1 <= s[j].1
}

/// Whether `r` is the lower-bound position of projection `p` in `s`: every
/// record before `r` projects strictly below `p`, every record from `r` on
/// projects at or above `p`.
pub open spec fn is_lower_bound(s: Seq<(usize, i128)>, p: int, r: int) -> bool {
    &&& 0 <= r <= s.len()
    &&& forall|k: int| 0 <= k < r ==> (#[trigger] s[k]).1 < p
    &&& forall|k: int| r <= k < s.len() ==> (#[trigger] s[k]).1 >= p
}

/// The lower-bound position of projection `p` in `s`.
pub open spec fn lower_bound_in(s: Seq<(usize, i128)>, p: int) -> int
    decreases s.len(),
{
    if s.len() == 0 {
        0
    } else if s[0].1 >= p {
        0
    } else {
        1 + lower_bound_in(s.drop_first(), p)
    }
}

/// On a sorted sequence, `lower_bound_in` is a lower bound.
pub proof fn lemma_lower_bound_in_correct(s: Seq<(usize, i128)>, p: int)
    requires
        projections_sorted(s),
    ensures
        is_lower_bound(s, p, lower_bound_in(s, p)),
    decreases s.len(),
{
    if s.len() > 0 {
        if s[0].1 >= p {
            assert forall|k: int| 0 <= k < s.len() implies (#[trigger] s[k]).1 >= p by {
                if k > 0 {
                    assert(s[0].1 <= s[k].1);
                }
            }
        } else {
            let t = s.drop_first();
            assert(projections_sorted(t)) by {
                assert forall|i: int, j: int| 0 <= i < j < t.len() implies (#[trigger] t[i]).1
                    <= (#[trigger] t[j]).1 by {
                    assert(t[i] == s[i + 1]);
                    assert(t[j] == s[j + 1]);
                }
            }
            lemma_lower_bound_in_correct(t, p);
            let r = 1 + lower_bound_in(t, p);
            assert forall|k: int| 0 <= k < r implies (#[trigger] s[k]).1 < p by {
                if k > 0 {
                    assert(t[k - 1] == s[k]);
                }
            }
            assert forall|k: int| r <= k < s.len() implies (#[trigger] s[k]).1 >= p by {
                assert(t[k - 1] == s[k]);
            }
        }
    }
}

/// A lower-bound position is unique.
pub proof fn lemma_lower_bound_unique(s: Seq<(usize, i128)>, p: int, r1: int, r2: int)
    requires
        is_lower_bound(s, p, r1),
        is_lower_bound(s, p, r2),
    ensures
        r1 == r2,
{
    if r1 < r2 {
        assert(s[r1].1 < p);
        assert(s[r1].1 >= p);
    }
    if r2 < r1 {
        assert(s[r2].1 < p);
        assert(s[r2].1 >= p);
    }
}

/// Whether `s` is strictly ordered by ascending projection, ties by
/// descending entry: the order `order_canonical` asks of an index.
pub open spec fn strictly_ordered(s: Seq<(usize, i128)>) -> bool {
    forall|k: int, l: int|
        0 <= k < l < s.len() ==> ((#[trigger] s[k]).1 < (#[trigger] s[l]).1 || (s[k].1 == s[l].1
            && s[k].0 > s[l].0))
}

/// The ordered index after the entry at position `removed` leaves the store:
/// every record naming a later entry is renumbered down by one.
pub open spec fn renumber(s: Seq<(usize, i128)>, removed: int) -> Seq<(usize, i128)> {
    s.map_values(
        |rec: (usize, i128)|
            if rec.0 > removed {
                (((rec.0 - 1) as usize), rec.1)
            } else {
                rec
            },
    )
}

/// An object that semantically stores T by index of quantised embeddings.
pub struct SemanticVec<T> {
    /// The entry store: each entry's embedding beside its exclusively owned
    /// value. The one source of truth; never reordered in place.
    pub contents: Vec<(Vec<i32>, T)>,

    /// The ordered index: records of entry position and projection scalar,
    /// kept sorted ascending by projection.
    pub ldts: Vec<(usize, i128)>,

    /// A linear dot transformer.
    /// Typically should be in the form
    /// `vec!![0..DIMENSION]`
    pub ldt: Vec<i32>,
}

impl<T> SemanticVec<T> {
    /// The projection of embedding `e` under this index's transformer.
    pub open spec fn spec_projection(self, e: Seq<i32>) -> int {
        dot_seq(e, self.ldt@)
    }

    /// The similarity of query embedding `q` to the entry at position `k`.
    pub open spec fn spec_similarity(self, q: Seq<i32>, k: int) -> int {
        dot_seq(q, self.contents@[k].0@)
    }

    /// Every embedding this index holds has exactly `DIMENSION` components.
    pub open spec fn dims_ok(self) -> bool {
        &&& self.ldt@.len() == DIMENSION as int
        &&& forall|k: int|
            0 <= k < self.contents@.len() ==> (#[trigger] self.contents@[k]).0@.len()
                == DIMENSION as int
    }

    /// Whether some record of the ordered index names the entry at position
    /// `e` of the entry store.
    pub open spec fn entry_listed(self, e: int) -> bool {
        exists|k: int| 0 <= k < self.ldts@.len() && (#[trigger] self.ldts@[k]).0 == e
    }

    /// The ordered index lists each entry exactly once, under its current
    /// projection.
    pub open spec fn order_consistent(self) -> bool {
        &&& self.ldts@.len() == self.contents@.len()
        &&& forall|k: int|
            0 <= k < self.ldts@.len() ==> (#[trigger] self.ldts@[k]).0 < self.contents@.len()
        &&& forall|k: int, l: int|
            0 <= k < l < self.ldts@.len() ==> (#[trigger] self.ldts@[k]).0 != (
            #[trigger] self.ldts@[l]).0
        &&& forall|e: int| 0 <= e < self.contents@.len() ==> #[trigger] self.entry_listed(e)
        &&& forall|k: int|
            0 <= k < self.ldts@.len() ==> (#[trigger] self.ldts@[k]).1 == self.spec_projection(
                self.contents@[self.ldts@[k].0 as int].0@,
            )
    }

    /// The invariant every operation preserves: dimensions agree, the ordered
    /// index is a consistent permutation, and it is sorted by projection.
    pub open spec fn well_formed(self) -> bool {
        &&& self.dims_ok()
        &&& self.order_consistent()
        &&& projections_sorted(self.ldts@)
    }

    /// Ties in the projection stand in last-in-first-out order: among equal
    /// projections, the record of the later-added entry comes first. Together
    /// with `well_formed` this pins the ordered index down as a function of
    /// the entry store.
    pub open spec fn order_canonical(self) -> bool {
        strictly_ordered(self.ldts@)
    }

    /// Creates a new SemanticVec, empty, with the fixed projection basis
    /// `[0, 1, ..., DIMENSION - 1]`.
    pub fn new() -> (r: SemanticVec<T>)
        ensures
            r.well_formed(),
            r.order_canonical(),
            r.contents@.len() == 0,
            r.ldt@ == Seq::new(DIMENSION as nat, |k: int| k as i32),
    {
        let mut ldt: Vec<i32> = Vec::new();
        let mut i: usize = 0;
        while i < DIMENSION
            invariant
                i <= DIMENSION,
                ldt@.len() == i as int,
                forall|k: int| 0 <= k < i as int ==> ldt@[k] == k as i32,
            decreases DIMENSION - i,
        {
            ldt.push(i as i32);
            i = i + 1;
        }
        proof {
            assert(ldt@ =~= Seq::new(DIMENSION as nat, |k: int| k as i32));
        }
        SemanticVec { contents: Vec::new(), ldts: Vec::new(), ldt }
    }

    /// Binary search for the lower-bound position of projection `ldt` in the
    /// ordered index. Degenerate case: an index with 0 or 1 records answers 0
    /// without probing.
    pub fn quick_search(&self, ldt: i128) -> (r: usize)
        requires
            projections_sorted(self.ldts@),
        ensures
            self.ldts@.len() <= 1 ==> r == 0,
            self.ldts@.len() > 1 ==> is_lower_bound(self.ldts@, ldt as int, r as int),
    {
        let len = self.ldts.len();
        if len <= 1 {
            return 0;
        }

        let mut start: usize = 0;
        let mut end: usize = len;

        while start < end
            invariant
                0 <= start <= end <= len,
                len == self.ldts@.len(),
                projections_sorted(self.ldts@),
                forall|k: int| 0 <= k < start as int ==> (#[trigger] self.ldts@[k]).1 < ldt,
                forall|k: int|
                    end as int <= k < len as int ==> (#[trigger] self.ldts@[k]).1 >= ldt,
            decreases end - start,
        {
            let mid = start + (end - start) / 2;
            if ldt > self.ldts[mid].1 {
                proof {
                    assert forall|k: int| 0 <= k < mid as int + 1 implies (
                    #[trigger] self.ldts@[k]).1 < ldt by {
                        if k < mid as int {
                            assert(self.ldts@[k].1 <= self.ldts@[mid as int].1);
                        }
                    }
                }
                start = mid + 1;
            } else {
                proof {
                    assert forall|k: int| mid as int <= k < len as int implies (
                    #[trigger] self.ldts@[k]).1 >= ldt by {
                        if k > mid as int {
                            assert(self.ldts@[mid as int].1 <= self.ldts@[k].1);
                        }
                    }
                }
                end = mid;
            }
        }

        start
    }

    /// The position at which a record with projection `p` is inserted: the
    /// lower bound of `p`. An index of one record is compared directly, since
    /// `quick_search` answers 0 for it without probing; insertion must place
    /// the new record on the sorted side of the existing one.
    fn insert_position(&self, p: i128) -> (r: usize)
        requires
            projections_sorted(self.ldts@),
        ensures
            is_lower_bound(self.ldts@, p as int, r as int),
            r as int == lower_bound_in(self.ldts@, p as int),
    {
        let len = self.ldts.len();
        let r: usize = if len == 0 {
            0
        } else if len == 1 {
            if self.ldts[0].1 >= p {
                0
            } else {
                1
            }
        } else {
            self.quick_search(p)
        };
        proof {
            lemma_lower_bound_in_correct(self.ldts@, p as int);
            lemma_lower_bound_unique(
                self.ldts@,
                p as int,
                r as int,
                lower_bound_in(self.ldts@, p as int),
            );
        }
        r
    }

    /// Adds a value under its quantised embedding to the SemanticVec, and
    /// recalculates the linear dot projection.
    ///
    /// The entry is appended to the entry store, and a record for it is
    /// inserted into the ordered index at the lower bound of its projection,
    /// so the index stays sorted.
    pub fn add(&mut self, embeddings: Vec<i32>, val: T)
        requires
            old(self).well_formed(),
            embeddings@.len() == DIMENSION as int,
        ensures
            final(self).well_formed(),
            final(self).ldt == old(self).ldt,
            final(self).contents@ == old(self).contents@.push((embeddings, val)),
            final(self).ldts@ == old(self).ldts@.insert(
                lower_bound_in(old(self).ldts@, old(self).spec_projection(embeddings@)),
                (old(self).contents@.len() as usize, old(self).spec_projection(embeddings@) as i128),
            ),
            old(self).order_canonical() ==> final(self).order_canonical(),
    {
        proof {
            lemma_dot_seq_bound(embeddings@, self.ldt@);
        }
        let ldt_val: i128 = match embeddings.dot(&self.ldt) {
            Ok(v) => v,
            Err(_) => vstd::pervasive::unreached(),
        };

        let predicted = self.insert_position(ldt_val);

        let ghost old_self = *self;
        let ghost p = old_self.spec_projection(embeddings@);

        self.contents.push((embeddings, val));

        let new_idx = self.contents.len() - 1;
        self.ldts.insert(predicted, (new_idx, ldt_val));

        proof {
            let s_old = old_self.ldts@;
            let s_new = self.ldts@;
            let pos = predicted as int;
            let n_old = old_self.contents@.len() as int;

            assert(s_new == s_old.insert(pos, (n_old as usize, ldt_val)));
            assert(self.contents@ == old_self.contents@.push((embeddings, val)));

            // Each new record is an old record shifted, or the fresh one.
            assert forall|k: int| 0 <= k < s_new.len() implies ((k < pos ==> #[trigger] s_new[k]
                == s_old[k]) && (k == pos ==> s_new[k] == (n_old as usize, ldt_val)) && (k > pos
                ==> s_new[k] == s_old[k - 1])) by {}

            assert(self.dims_ok());

            assert forall|k: int| 0 <= k < s_new.len() implies (#[trigger] s_new[k]).1
                == self.spec_projection(self.contents@[s_new[k].0 as int].0@) by {
                if k < pos {
                    assert(s_new[k] == s_old[k]);
                    assert(s_old[k].0 < n_old);
                    assert(self.contents@[s_old[k].0 as int] == old_self.contents@[s_old[k].0 as int]);
                } else if k == pos {
                    assert(self.contents@[n_old].0@ == embeddings@);
                } else {
                    assert(s_new[k] == s_old[k - 1]);
                    assert(s_old[k - 1].0 < n_old);
                    assert(self.contents@[s_old[k - 1].0 as int] == old_self.contents@[s_old[k
                        - 1].0 as int]);
                }
            }

            assert forall|e: int| 0 <= e < self.contents@.len() implies #[trigger] self.entry_listed(
                e,
            ) by {
                if e < n_old {
                    assert(old_self.entry_listed(e));
                    let k0 = choose|k: int| 0 <= k < s_old.len() && (#[trigger] s_old[k]).0 == e;
                    if k0 < pos {
                        assert(s_new[k0].0 == e);
                    } else {
                        assert(s_new[k0 + 1].0 == e);
                    }
                } else {
                    assert(s_new[pos].0 == e);
                }
            }

            assert(self.order_consistent());

            assert(is_lower_bound(s_old, p, pos));
            assert(projections_sorted(s_new)) by {
                assert forall|i: int, j: int| 0 <= i < j < s_new.len() implies (
                #[trigger] s_new[i]).1 <= (#[trigger] s_new[j]).1 by {
                    if i < pos && j < pos {
                        assert(s_old[i].1 <= s_old[j].1);
                    } else if i < pos && j == pos {
                        assert(s_old[i].1 < p);
                    } else if i < pos && j > pos {
                        assert(s_old[i].1 <= s_old[j - 1].1);
                    } else if i == pos {
                        assert(s_old[j - 1].1 >= p);
                    } else {
                        assert(s_old[i - 1].1 <= s_old[j - 1].1);
                    }
                }
            }

            if old_self.order_canonical() {
                assert forall|i: int, j: int| 0 <= i < j < s_new.len() implies ((
                #[trigger] s_new[i]).1 < (#[trigger] s_new[j]).1 || (s_new[i].1 == s_new[j].1
                    && s_new[i].0 > s_new[j].0)) by {
                    if i < pos && j < pos {
                        assert(s_old[i].1 < s_old[j].1 || (s_old[i].1 == s_old[j].1 && s_old[i].0
                            > s_old[j].0));
                    } else if i < pos && j == pos {
                        assert(s_old[i].1 < p);
                    } else if i < pos && j > pos {
                        assert(s_old[i].1 < s_old[j - 1].1 || (s_old[i].1 == s_old[j - 1].1
                            && s_old[i].0 > s_old[j - 1].0));
                    } else if i == pos {
                        assert(s_old[j - 1].1 >= p);
                        assert(s_old[j - 1].0 < n_old);
                    } else {
                        assert(s_old[i - 1].1 < s_old[j - 1].1 || (s_old[i - 1].1 == s_old[j
                            - 1].1 && s_old[i - 1].0 > s_old[j - 1].0));
                    }
                }
            }
        }
    }
    /// The seed position for query `q`: the lower bound of its projection in
    /// the ordered index, clamped into the entry store.
    pub open spec fn spec_seed(self, q: Seq<i32>) -> int {
        let lb = lower_bound_in(self.ldts@, self.spec_projection(q));
        if lb >= self.contents@.len() {
            self.contents@.len() - 1
        } else {
            lb
        }
    }

    /// The similarity of query `q` to the entry at its seed position.
    pub open spec fn spec_seed_similarity(self, q: Seq<i32>) -> int {
        self.spec_similarity(q, self.spec_seed(q))
    }

    /// Finds the closest match to the query embedding.
    ///
    /// The projection of the query seeds a binary search; an expanding scan
    /// around the seed compares true similarities and stops once a whole
    /// probe ring falls `TOLERANCE` or more below the best seen. The best
    /// candidate is a match only if its similarity reaches
    /// `EMBEDDING_MINIMUM`.
    pub fn search(&self, embeddings: &Vec<i32>) -> (r: Option<&T>)
        requires
            self.well_formed(),
            embeddings@.len() == DIMENSION as int,
        ensures
            self.contents@.len() == 0 ==> r is None,
            (forall|k: int|
                0 <= k < self.contents@.len() ==> self.spec_similarity(embeddings@, k) < (
                EMBEDDING_MINIMUM as int)) ==> r is None,
            r matches Some(v) ==> exists|k: int|
                {
                    &&& 0 <= k < self.contents@.len()
                    &&& *v == (#[trigger] self.contents@[k]).1
                    &&& self.spec_similarity(embeddings@, k) >= EMBEDDING_MINIMUM as int
                    &&& self.spec_similarity(embeddings@, k) >= self.spec_seed_similarity(
                        embeddings@,
                    )
                },
            self.contents@.len() > 0 && self.spec_seed_similarity(embeddings@)
                >= EMBEDDING_MINIMUM as int ==> r is Some,
    {
        let len = self.contents.len();

        if len == 0 {
            return None;
        }

        proof {
            lemma_dot_seq_bound(embeddings@, self.ldt@);
        }
        let ldt_val: i128 = match embeddings.dot(&self.ldt) {
            Ok(v) => v,
            Err(_) => vstd::pervasive::unreached(),
        };

        let qs = self.quick_search(ldt_val);
        let predicted: usize = if qs >= len {
            len - 1
        } else {
            qs
        };

        proof {
            lemma_lower_bound_in_correct(self.ldts@, ldt_val as int);
            if self.ldts@.len() > 1 {
                lemma_lower_bound_unique(
                    self.ldts@,
                    ldt_val as int,
                    qs as int,
                    lower_bound_in(self.ldts@, ldt_val as int),
                );
            }
            assert(predicted as int == self.spec_seed(embeddings@));
            lemma_dot_seq_bound(embeddings@, self.contents@[predicted as int].0@);
        }

        let sdot: i128 = match embeddings.dot(&self.contents[predicted].0) {
            Ok(v) => v,
            Err(_) => vstd::pervasive::unreached(),
        };

        let mut last_dot: i128 = sdot;
        let mut best_dot: i128 = sdot;
        let mut best_i: usize = predicted;
        let mut i: usize = 0;
        let mut actionable: bool = true;

        while last_dot + TOLERANCE > best_dot && actionable
            invariant
                self.well_formed(),
                embeddings@.len() == DIMENSION as int,
                len == self.contents@.len(),
                0 < len,
                predicted < len,
                best_i < len,
                sdot == self.spec_seed_similarity(embeddings@),
                best_dot == self.spec_similarity(embeddings@, best_i as int),
                best_dot >= sdot,
                -SIMILARITY_LIMIT <= last_dot <= SIMILARITY_LIMIT,
                -SIMILARITY_LIMIT <= best_dot <= SIMILARITY_LIMIT,
                actionable ==> i <= len,
                i <= len + 1,
            decreases len + 1 - i, (if actionable {
                1int
            } else {
                0int
            }),
        {
            actionable = false;

            let mut best_in_part: usize = 0;
            let mut best_in_part_dot: i128 = 0;
            let mut have_part: bool = false;

            if i <= predicted {
                let low = predicted - i;
                proof {
                    lemma_dot_seq_bound(embeddings@, self.contents@[low as int].0@);
                }
                let part_dot: i128 = match embeddings.dot(&self.contents[low].0) {
                    Ok(v) => v,
                    Err(_) => vstd::pervasive::unreached(),
                };
                best_in_part = low;
                best_in_part_dot = part_dot;
                have_part = true;
                actionable = true;
            }
            if i < len - predicted {
                let high = predicted + i;
                proof {
                    lemma_dot_seq_bound(embeddings@, self.contents@[high as int].0@);
                }
                let part_dot: i128 = match embeddings.dot(&self.contents[high].0) {
                    Ok(v) => v,
                    Err(_) => vstd::pervasive::unreached(),
                };
                if !have_part || part_dot > best_in_part_dot {
                    best_in_part = high;
                    best_in_part_dot = part_dot;
                }
                have_part = true;
                actionable = true;
            }

            if actionable {
                last_dot = best_in_part_dot;

                if best_in_part_dot > best_dot {
                    best_i = best_in_part;
                    best_dot = best_in_part_dot;
                }

                i = i + 1;
            }
        }

        if best_dot >= EMBEDDING_MINIMUM {
            Some(&self.contents[best_i].1)
        } else {
            None
        }
    }

    /// Removes the entry at position `index` from the entry store together
    /// with its record in the ordered index; every surviving record naming a
    /// later entry is renumbered down by one. Reports `IndexOutOfRange`, and
    /// changes nothing, when no such entry exists.
    pub fn remove(&mut self, index: usize) -> (r: Result<(), IndexOutOfRange>)
        requires
            old(self).well_formed(),
        ensures
            final(self).ldt == old(self).ldt,
            r is Ok <==> (index as int) < old(self).contents@.len(),
            r is Err ==> *final(self) == *old(self),
            r is Ok ==> final(self).well_formed(),
            r is Ok ==> final(self).contents@ == old(self).contents@.remove(index as int),
            r is Ok ==> exists|k: int|
                {
                    &&& 0 <= k < old(self).ldts@.len()
                    &&& (#[trigger] old(self).ldts@[k]).0 == index
                    &&& final(self).ldts@ == renumber(old(self).ldts@.remove(k), index as int)
                },
            old(self).order_canonical() && r is Ok ==> final(self).order_canonical(),
    {
        let len = self.contents.len();
        if index >= len {
            return Err(IndexOutOfRange);
        }

        let ldts_len = self.ldts.len();
        let mut k: usize = 0;
        let mut found: bool = false;
        while !found && k < ldts_len
            invariant
                ldts_len == self.ldts@.len(),
                k <= ldts_len,
                !found ==> forall|j: int| 0 <= j < k as int ==> (#[trigger] self.ldts@[j]).0
                    != index,
                found ==> k < ldts_len && self.ldts@[k as int].0 == index,
            decreases (if found {
                0int
            } else {
                1int
            }), ldts_len - k,
        {
            if self.ldts[k].0 == index {
                found = true;
            } else {
                k = k + 1;
            }
        }
        proof {
            if !found {
                assert(self.entry_listed(index as int));
                assert(false);
            }
        }

        let ghost old_self = *self;
        self.ldts.remove(k);
        let ghost sr = old_self.ldts@.remove(k as int);

        let m = self.ldts.len();
        let mut j: usize = 0;
        while j < m
            invariant
                m == self.ldts@.len(),
                m == sr.len(),
                j <= m,
                self.contents == old_self.contents,
                self.ldt == old_self.ldt,
                forall|t: int|
                    0 <= t < j as int ==> (#[trigger] self.ldts@[t]) == renumber(
                        sr,
                        index as int,
                    )[t],
                forall|t: int| j as int <= t < m ==> (#[trigger] self.ldts@[t]) == sr[t],
            decreases m - j,
        {
            let rec = self.ldts[j];
            if rec.0 > index {
                self.ldts.set(j, (rec.0 - 1, rec.1));
            }
            j = j + 1;
        }

        proof {
            assert(self.ldts@ =~= renumber(sr, index as int));
        }

        self.contents.remove(index);

        proof {
            let s0 = old_self.ldts@;
            let n = old_self.contents@.len() as int;
            let idx = index as int;
            let sn = self.ldts@;

            assert(s0[k as int].0 == idx);

            // Relate positions of `sr` to positions of `s0`.
            assert forall|t: int| 0 <= t < sr.len() implies (#[trigger] sr[t]) == (if t < k as int {
                s0[t]
            } else {
                s0[t + 1]
            }) by {}

            // No surviving record names the removed entry.
            assert forall|t: int| 0 <= t < sr.len() implies (#[trigger] sr[t]).0 != idx by {
                if t < k as int {
                    assert(s0[t].0 != s0[k as int].0);
                } else {
                    assert(s0[t + 1].0 != s0[k as int].0);
                }
            }

            assert(self.dims_ok()) by {
                assert forall|t: int| 0 <= t < self.contents@.len() implies (
                #[trigger] self.contents@[t]).0@.len() == DIMENSION as int by {
                    if t < idx {
                        assert(self.contents@[t] == old_self.contents@[t]);
                    } else {
                        assert(self.contents@[t] == old_self.contents@[t + 1]);
                    }
                }
            }

            assert forall|t: int| 0 <= t < sn.len() implies (#[trigger] sn[t]).0
                < self.contents@.len() && sn[t].1 == self.spec_projection(
                self.contents@[sn[t].0 as int].0@,
            ) by {
                let rec = sr[t];
                assert(rec.0 < n && rec.0 != idx);
                if rec.0 > idx {
                    assert(sn[t] == (((rec.0 - 1) as usize), rec.1));
                    assert(self.contents@[rec.0 - 1] == old_self.contents@[rec.0 as int]);
                } else {
                    assert(sn[t] == rec);
                    assert(self.contents@[rec.0 as int] == old_self.contents@[rec.0 as int]);
                }
            }

            assert forall|t: int, u: int| 0 <= t < u < sn.len() implies (#[trigger] sn[t]).0 != (
            #[trigger] sn[u]).0 by {
                let a = sr[t];
                let b = sr[u];
                assert(a.0 != b.0);
                assert(a.0 != idx && b.0 != idx);
            }

            assert forall|e: int| 0 <= e < self.contents@.len() implies
                #[trigger] self.entry_listed(e) by {
                let target: int = if e < idx {
                    e
                } else {
                    e + 1
                };
                assert(old_self.entry_listed(target));
                let w = choose|w: int|
                    0 <= w < s0.len() && (#[trigger] s0[w]).0 == target;
                assert(w != k as int);
                let t: int = if w < k as int {
                    w
                } else {
                    w - 1
                };
                assert(sr[t] == s0[w]);
                if e < idx {
                    assert(sn[t].0 == e);
                } else {
                    assert(sn[t].0 == e);
                }
            }

            assert(projections_sorted(sn)) by {
                assert forall|t: int, u: int| 0 <= t < u < sn.len() implies (
                #[trigger] sn[t]).1 <= (#[trigger] sn[u]).1 by {
                    assert(sn[t].1 == sr[t].1 && sn[u].1 == sr[u].1);
                    if u < k as int {
                        assert(s0[t].1 <= s0[u].1);
                    } else if t < k as int {
                        assert(s0[t].1 <= s0[u + 1].1);
                    } else {
                        assert(s0[t + 1].1 <= s0[u + 1].1);
                    }
                }
            }

            assert(self.order_consistent());

            if old_self.order_canonical() {
                assert forall|t: int, u: int| 0 <= t < u < sn.len() implies ((
                #[trigger] sn[t]).1 < (#[trigger] sn[u]).1 || (sn[t].1 == sn[u].1 && sn[t].0
                    > sn[u].0)) by {
                    let a = sr[t];
                    let b = sr[u];
                    assert(a.1 < b.1 || (a.1 == b.1 && a.0 > b.0)) by {
                        if u < k as int {
                            assert(s0[t].1 < s0[u].1 || (s0[t].1 == s0[u].1 && s0[t].0
                                > s0[u].0));
                        } else if t < k as int {
                            assert(s0[t].1 < s0[u + 1].1 || (s0[t].1 == s0[u + 1].1 && s0[t].0
                                > s0[u + 1].0));
                        } else {
                            assert(s0[t + 1].1 < s0[u + 1].1 || (s0[t + 1].1 == s0[u + 1].1
                                && s0[t + 1].0 > s0[u + 1].0));
                        }
                    }
                    assert(a.0 != idx && b.0 != idx);
                }
            }
        }

        Ok(())
    }
}

/// Whether `rec` occurs in `s`.
pub open spec fn record_in(s: Seq<(usize, i128)>, rec: (usize, i128)) -> bool {
    exists|k: int| 0 <= k < s.len() && s[k] == rec
}

/// In two equally long, same-way strictly ordered sequences that hold each
/// other's records, the first records agree: each first record is the least
/// under the order.
proof fn lemma_strictly_ordered_head(a: Seq<(usize, i128)>, b: Seq<(usize, i128)>)
    requires
        strictly_ordered(a),
        strictly_ordered(b),
        a.len() == b.len(),
        a.len() > 0,
        forall|t: int| 0 <= t < a.len() ==> #[trigger] record_in(b, a[t]),
        forall|t: int| 0 <= t < b.len() ==> #[trigger] record_in(a, b[t]),
    ensures
        a[0] == b[0],
{
    assert(record_in(b, a[0]));
    assert(record_in(a, b[0]));
    let k0 = choose|k: int| 0 <= k < b.len() && b[k] == a[0];
    let m0 = choose|k: int| 0 <= k < a.len() && a[k] == b[0];
    if k0 != 0 && m0 != 0 {
        assert(b[0].1 < b[k0].1 || (b[0].1 == b[k0].1 && b[0].0 > b[k0].0));
        assert(a[0].1 < a[m0].1 || (a[0].1 == a[m0].1 && a[0].0 > a[m0].0));
        assert(false);
    }
}

/// Dropping the shared first record keeps each record of the rest present in
/// the rest of the other sequence.
proof fn lemma_strictly_ordered_tail_membership(a: Seq<(usize, i128)>, b: Seq<(usize, i128)>)
    requires
        strictly_ordered(a),
        a.len() == b.len(),
        a.len() > 0,
        a[0] == b[0],
        forall|t: int| 0 <= t < a.len() ==> #[trigger] record_in(b, a[t]),
    ensures
        forall|t: int|
            0 <= t < a.drop_first().len() ==> #[trigger] record_in(
                b.drop_first(),
                a.drop_first()[t],
            ),
{
    let at = a.drop_first();
    let bt = b.drop_first();
    assert forall|t: int| 0 <= t < at.len() implies #[trigger] record_in(bt, at[t]) by {
        assert(at[t] == a[t + 1]);
        assert(record_in(b, a[t + 1]));
        let k = choose|k: int| 0 <= k < b.len() && b[k] == a[t + 1];
        assert(a[t + 1] != a[0]) by {
            assert(a[0].1 < a[t + 1].1 || (a[0].1 == a[t + 1].1 && a[0].0 > a[t + 1].0));
        }
        assert(k != 0);
        assert(bt[k - 1] == b[k]);
        assert(record_in(bt, at[t]));
    }
}

/// A strictly ordered tail stays strictly ordered.
proof fn lemma_strictly_ordered_tail(a: Seq<(usize, i128)>)
    requires
        strictly_ordered(a),
        a.len() > 0,
    ensures
        strictly_ordered(a.drop_first()),
{
    let at = a.drop_first();
    assert forall|k: int, l: int| 0 <= k < l < at.len() implies ((#[trigger] at[k]).1 < (
    #[trigger] at[l]).1 || (at[k].1 == at[l].1 && at[k].0 > at[l].0)) by {
        assert(at[k] == a[k + 1] && at[l] == a[l + 1]);
    }
}

/// Two sequences of records that are strictly ordered the same way and hold
/// each other's records are the same sequence: the order is total, so the
/// sorted sequence of a set of records is unique.
pub proof fn lemma_strictly_ordered_unique(a: Seq<(usize, i128)>, b: Seq<(usize, i128)>)
    requires
        strictly_ordered(a),
        strictly_ordered(b),
        a.len() == b.len(),
        forall|t: int| 0 <= t < a.len() ==> #[trigger] record_in(b, a[t]),
        forall|t: int| 0 <= t < b.len() ==> #[trigger] record_in(a, b[t]),
    ensures
        a == b,
    decreases a.len(),
{
    if a.len() > 0 {
        lemma_strictly_ordered_head(a, b);
        lemma_strictly_ordered_tail_membership(a, b);
        lemma_strictly_ordered_tail_membership(b, a);
        lemma_strictly_ordered_tail(a);
        lemma_strictly_ordered_tail(b);
        lemma_strictly_ordered_unique(a.drop_first(), b.drop_first());
        assert forall|t: int| 0 <= t < a.len() implies a[t] == b[t] by {
            if t > 0 {
                assert(a.drop_first()[t - 1] == b.drop_first()[t - 1]);
                assert(a[t] == a.drop_first()[t - 1]);
                assert(b[t] == b.drop_first()[t - 1]);
            }
        }
        assert(a =~= b);
    } else {
        assert(a =~= b);
    }
}

/// The four big-endian bytes of one embedding component.
pub open spec fn component_bytes(c: i32) -> Seq<u8> {
    be_bytes((c as u32) as int, 4)
}

/// The component that a four-byte block stands for.
pub open spec fn component_of(s: Seq<u8>) -> i32 {
    (be_value(s) as u32) as i32
}

/// The first `n` components of embedding `e` as big-endian byte blocks.
pub open spec fn embedding_bytes_prefix(e: Seq<i32>, n: int) -> Seq<u8>
    decreases n,
{
    if n <= 0 {
        Seq::empty()
    } else {
        embedding_bytes_prefix(e, n - 1) + component_bytes(e[n - 1])
    }
}

/// The raw big-endian bytes of one embedding.
pub open spec fn embedding_bytes(e: Seq<i32>) -> Seq<u8> {
    embedding_bytes_prefix(e, e.len() as int)
}

/// The bytes of an embedding lay its components out in order, four bytes
/// each.
pub proof fn lemma_embedding_bytes_prefix_layout(e: Seq<i32>, n: int)
    requires
        0 <= n <= e.len(),
    ensures
        embedding_bytes_prefix(e, n).len() == 4 * n,
        forall|j: int|
            0 <= j < n ==> embedding_bytes_prefix(e, n).subrange(4 * j, 4 * j + 4)
                == component_bytes(e[j]),
    decreases n,
{
    if n > 0 {
        lemma_embedding_bytes_prefix_layout(e, n - 1);
        lemma_be_bytes_len((e[n - 1] as u32) as int, 4);
        let s = embedding_bytes_prefix(e, n);
        let sp = embedding_bytes_prefix(e, n - 1);
        assert forall|j: int| 0 <= j < n implies s.subrange(4 * j, 4 * j + 4) == component_bytes(
            e[j],
        ) by {
            if j < n - 1 {
                assert(s.subrange(4 * j, 4 * j + 4) =~= sp.subrange(4 * j, 4 * j + 4));
            } else {
                assert(s.subrange(4 * j, 4 * j + 4) =~= component_bytes(e[j]));
            }
        }
    }
}

/// One component block reads back as the component it was written from.
pub proof fn lemma_component_round_trip(c: i32)
    ensures
        component_bytes(c).len() == 4,
        component_of(component_bytes(c)) == c,
{
    lemma_be_bytes_len((c as u32) as int, 4);
    assert(pow256(4) == 0x100000000) by {
        reveal_with_fuel(pow256, 5);
    }
    lemma_be_value_of_bytes((c as u32) as int, 4);
    assert(((c as u32) as i32) == c) by (bit_vector);
}

/// The embedding stored in block `k` of the fixed-size region of blob `s`.
pub open spec fn embedding_in(s: Seq<u8>, k: int) -> Seq<i32> {
    Seq::new(
        DIMENSION as nat,
        |j: int|
            component_of(
                s.subrange(
                    8 + k * ((DIMENSION as int) * 4) + 4 * j,
                    8 + k * ((DIMENSION as int) * 4) + 4 * j + 4,
                ),
            ),
    )
}

/// Parses `n` length-prefixed payloads from `s` starting at `i`, consuming
/// the rest of the input exactly; `None` when a record would read past the
/// end or the records fall short of it.
pub open spec fn parse_values(s: Seq<u8>, i: int, n: int) -> Option<Seq<Seq<u8>>>
    decreases n,
{
    if n <= 0 {
        if i == s.len() {
            Some(Seq::empty())
        } else {
            None
        }
    } else if i + 8 <= s.len() {
        let l = be_value(s.subrange(i, i + 8));
        if i + 8 + l <= s.len() {
            match parse_values(s, i + 8 + l, n - 1) {
                Some(rest) => Some(seq![s.subrange(i + 8, i + 8 + l)] + rest),
                None => None,
            }
        } else {
            None
        }
    } else {
        None
    }
}

/// A four-byte block writes back as itself after being read as a component.
pub proof fn lemma_component_write_back(b: Seq<u8>)
    requires
        b.len() == 4,
    ensures
        component_bytes(component_of(b)) == b,
{
    lemma_be_bytes_of_value(b);
    assert(pow256(4) == 0x100000000) by {
        reveal_with_fuel(pow256, 5);
    }
    let v = be_value(b);
    let u = v as u32;
    let c = component_of(b);
    assert(c == u as i32);
    assert(((u as i32) as u32) == u) by (bit_vector);
    assert(component_bytes(c) == be_bytes(u as int, 4));
    assert(u as int == v);
}

/// The embedding read from block `k` of blob `s` writes back as exactly that
/// block.
pub proof fn lemma_embedding_write_back(s: Seq<u8>, k: int)
    requires
        0 <= k,
        8 + (k + 1) * ((DIMENSION as int) * 4) <= s.len(),
    ensures
        embedding_bytes(embedding_in(s, k)) == s.subrange(
            8 + k * ((DIMENSION as int) * 4),
            8 + (k + 1) * ((DIMENSION as int) * 4),
        ),
{
    let blk = (DIMENSION as int) * 4;
    let e = embedding_in(s, k);
    let region = s.subrange(8 + k * blk, 8 + (k + 1) * blk);
    assert((k + 1) * blk == k * blk + blk) by (nonlinear_arith);
    assert(region.len() == blk);
    lemma_embedding_bytes_prefix_layout(e, e.len() as int);
    let eb = embedding_bytes(e);
    assert(eb.len() == blk);
    assert forall|j: int| 0 <= j < DIMENSION as int implies #[trigger] eb.subrange(
        4 * j,
        4 * j + 4,
    ) == region.subrange(4 * j, 4 * j + 4) by {
        assert(eb.subrange(4 * j, 4 * j + 4) == component_bytes(e[j]));
        assert(region.subrange(4 * j, 4 * j + 4) =~= s.subrange(
            8 + k * blk + 4 * j,
            8 + k * blk + 4 * j + 4,
        ));
        lemma_component_write_back(s.subrange(8 + k * blk + 4 * j, 8 + k * blk + 4 * j + 4));
        assert(e[j] == component_of(s.subrange(8 + k * blk + 4 * j, 8 + k * blk + 4 * j + 4)));
    }
    assert forall|x: int| 0 <= x < blk implies eb[x] == region[x] by {
        let j = x / 4;
        let rm = x % 4;
        vstd::arithmetic::div_mod::lemma_fundamental_div_mod(x, 4);
        assert(0 <= rm < 4);
        assert(0 <= j < DIMENSION as int) by (nonlinear_arith)
            requires
                x == 4 * j + rm,
                0 <= rm < 4,
                0 <= x < 1536,
        ;
        assert(eb.subrange(4 * j, 4 * j + 4) == region.subrange(4 * j, 4 * j + 4));
        assert(eb.subrange(4 * j, 4 * j + 4)[rm] == eb[x]);
        assert(region.subrange(4 * j, 4 * j + 4)[rm] == region[x]);
    }
    assert(eb =~= region);
}

impl<T: ByteConversion> SemanticVec<T> {
    /// The fixed-size region bytes of entries `a` onward, in store order.
    pub open spec fn embeddings_tail(self, a: int) -> Seq<u8>
        decreases self.contents@.len() - a,
    {
        if a < 0 || a >= self.contents@.len() {
            Seq::empty()
        } else {
            embedding_bytes(self.contents@[a].0@) + self.embeddings_tail(a + 1)
        }
    }

    /// The value-record bytes of entries `a` onward: each value's encoding
    /// after its 64-bit length.
    pub open spec fn values_tail(self, a: int) -> Seq<u8>
        decreases self.contents@.len() - a,
    {
        if a < 0 || a >= self.contents@.len() {
            Seq::empty()
        } else {
            be_bytes(self.contents@[a].1.encoding().len() as int, 8) + self.contents@[a].1.encoding()
                + self.values_tail(a + 1)
        }
    }

    /// The fixed-size region lays the embeddings out in store order.
    pub proof fn lemma_embeddings_tail_layout(self, a: int)
        requires
            0 <= a <= self.contents@.len(),
            self.dims_ok(),
        ensures
            self.embeddings_tail(a).len() == (self.contents@.len() - a) * ((DIMENSION as int) * 4),
            forall|k: int|
                a <= k < self.contents@.len() ==> self.embeddings_tail(a).subrange(
                    (k - a) * ((DIMENSION as int) * 4),
                    (k - a + 1) * ((DIMENSION as int) * 4),
                ) == embedding_bytes((#[trigger] self.contents@[k]).0@),
        decreases self.contents@.len() - a,
    {
        let n = self.contents@.len() as int;
        let blk = (DIMENSION as int) * 4;
        assert(blk == 1536);
        if a < n {
            let e = self.contents@[a].0@;
            lemma_embedding_bytes_prefix_layout(e, e.len() as int);
            self.lemma_embeddings_tail_layout(a + 1);
            let s = self.embeddings_tail(a);
            let eb = embedding_bytes(e);
            let rest = self.embeddings_tail(a + 1);
            assert(eb.len() == blk);
            assert(rest.len() == (n - a - 1) * blk);
            assert(s == eb + rest);
            assert(s.len() == blk + (n - a - 1) * blk);
            assert(blk + (n - a - 1) * blk == (n - a) * blk) by (nonlinear_arith);
            assert forall|k: int| a <= k < n implies s.subrange((k - a) * blk, (k - a + 1) * blk)
                == embedding_bytes((#[trigger] self.contents@[k]).0@) by {
                if k == a {
                    assert(s.subrange(0, blk) =~= eb);
                } else {
                    let lo = (k - a) * blk;
                    let hi = (k - a + 1) * blk;
                    let lo1 = (k - a - 1) * blk;
                    let hi1 = (k - a) * blk;
                    assert(lo == blk + lo1 && hi == blk + hi1) by (nonlinear_arith)
                        requires
                            lo == (k - a) * blk,
                            hi == (k - a + 1) * blk,
                            lo1 == (k - a - 1) * blk,
                            hi1 == (k - a) * blk,
                    ;
                    assert(blk <= lo && hi <= s.len()) by (nonlinear_arith)
                        requires
                            lo == blk + lo1,
                            hi == blk + hi1,
                            0 <= lo1,
                            hi1 <= (n - a - 1) * blk,
                            s.len() == (n - a) * blk,
                            hi == blk + hi1,
                            blk > 0,
                            a < k < n,
                            lo1 == (k - a - 1) * blk,
                            hi1 == (k - a) * blk,
                    ;
                    assert(rest.subrange(lo1, hi1) == embedding_bytes(self.contents@[k].0@));
                    assert(s.subrange(lo, hi) =~= rest.subrange(lo1, hi1));
                }
            }
        }
    }

    /// Appending one entry to the store appends its bytes to both regions.
    pub proof fn lemma_tails_push(pre: SemanticVec<T>, post: SemanticVec<T>, a: int)
        requires
            0 <= a <= pre.contents@.len(),
            post.contents@.len() == pre.contents@.len() + 1,
            forall|t: int|
                0 <= t < pre.contents@.len() ==> #[trigger] post.contents@[t] == pre.contents@[t],
        ensures
            post.embeddings_tail(a) == pre.embeddings_tail(a) + embedding_bytes(
                post.contents@[pre.contents@.len() as int].0@,
            ),
            post.values_tail(a) == pre.values_tail(a) + be_bytes(
                post.contents@[pre.contents@.len() as int].1.encoding().len() as int,
                8,
            ) + post.contents@[pre.contents@.len() as int].1.encoding(),
        decreases pre.contents@.len() - a,
    {
        let n = pre.contents@.len() as int;
        if a == n {
            assert(pre.embeddings_tail(a).len() == 0);
            assert(pre.values_tail(a).len() == 0);
            assert(post.embeddings_tail(a + 1).len() == 0);
            assert(post.values_tail(a + 1).len() == 0);
            assert(post.embeddings_tail(a) =~= pre.embeddings_tail(a) + embedding_bytes(
                post.contents@[n].0@,
            ));
            assert(post.values_tail(a) =~= pre.values_tail(a) + be_bytes(
                post.contents@[n].1.encoding().len() as int,
                8,
            ) + post.contents@[n].1.encoding());
        } else {
            Self::lemma_tails_push(pre, post, a + 1);
            assert(post.contents@[a] == pre.contents@[a]);
            assert(post.embeddings_tail(a) =~= pre.embeddings_tail(a) + embedding_bytes(
                post.contents@[n].0@,
            ));
            assert(post.values_tail(a) =~= pre.values_tail(a) + be_bytes(
                post.contents@[n].1.encoding().len() as int,
                8,
            ) + post.contents@[n].1.encoding());
        }
    }

    /// The round-trip law's second half: an index's model determines the
    /// whole of its specification state. `lemma_round_trip` gives
    /// `from_bytes(to_bytes(x))` the model of `x`; by this lemma the read
    /// index also carries the same embeddings, the same projection basis and
    /// the same ordered index, so the contracts of `search`, `quick_search`,
    /// `add` and `remove` promise it exactly what they promise `x`.
    #[verifier::rlimit(50)]
    #[verifier::spinoff_prover]
    pub proof fn lemma_model_determines_state(x: SemanticVec<T>, y: SemanticVec<T>)
        requires
            x.valid(),
            y.valid(),
            y.model() == x.model(),
        ensures
            y.contents@.len() == x.contents@.len(),
            forall|k: int|
                0 <= k < x.contents@.len() ==> (#[trigger] y.contents@[k]).0@
                    == x.contents@[k].0@,
            forall|k: int|
                0 <= k < x.contents@.len() ==> (#[trigger] y.contents@[k]).1.model()
                    == x.contents@[k].1.model(),
            y.ldt@ == x.ldt@,
            y.ldts@ == x.ldts@,
    {
        let n = x.contents@.len() as int;
        assert(y.model().len() == x.model().len());
        assert(x.model().len() == n);
        assert(y.model().len() == y.contents@.len());
        assert(y.contents@.len() == n);
        assert forall|k: int| 0 <= k < n implies (#[trigger] y.contents@[k]).0@
            == x.contents@[k].0@ && y.contents@[k].1.model() == x.contents@[k].1.model() by {
            assert(x.model()[k] == (x.contents@[k].0@, x.contents@[k].1.model()));
            assert(y.model()[k] == (y.contents@[k].0@, y.contents@[k].1.model()));
        }
        assert(strictly_ordered(x.ldts@));
        assert(strictly_ordered(y.ldts@));
        assert forall|t: int| 0 <= t < x.ldts@.len() implies #[trigger] record_in(
            y.ldts@,
            x.ldts@[t],
        ) by {
            let e = x.ldts@[t].0;
            assert(y.entry_listed(e as int));
            let k = choose|k: int| 0 <= k < y.ldts@.len() && (#[trigger] y.ldts@[k]).0 == e as int;
            assert(y.ldts@[k].1 == dot_seq(y.contents@[e as int].0@, y.ldt@));
            assert(x.ldts@[t].1 == dot_seq(x.contents@[e as int].0@, x.ldt@));
            assert(y.ldts@[k] == x.ldts@[t]);
            assert(record_in(y.ldts@, x.ldts@[t]));
        }
        assert forall|t: int| 0 <= t < y.ldts@.len() implies #[trigger] record_in(
            x.ldts@,
            y.ldts@[t],
        ) by {
            let e = y.ldts@[t].0;
            assert(x.entry_listed(e as int));
            let k = choose|k: int| 0 <= k < x.ldts@.len() && (#[trigger] x.ldts@[k]).0 == e as int;
            assert(x.ldts@[k].1 == dot_seq(x.contents@[e as int].0@, x.ldt@));
            assert(y.ldts@[t].1 == dot_seq(y.contents@[e as int].0@, y.ldt@));
            assert(x.ldts@[k] == y.ldts@[t]);
            assert(record_in(x.ldts@, y.ldts@[t]));
        }
        lemma_strictly_ordered_unique(x.ldts@, y.ldts@);
    }

    /// The value records of entries `a` onward parse back as exactly those
    /// entries' encodings.
    pub proof fn lemma_values_tail_parses(self, s: Seq<u8>, i: int, a: int)
        requires
            0 <= a <= self.contents@.len(),
            0 <= i <= s.len(),
            s.subrange(i, s.len() as int) == self.values_tail(a),
            forall|k: int|
                a <= k < self.contents@.len() ==> (#[trigger] self.contents@[k]).1.encoding().len()
                    < pow256(8),
        ensures
            parse_values(s, i, self.contents@.len() - a) == Some(
                Seq::new(
                    (self.contents@.len() - a) as nat,
                    |k: int| self.contents@[a + k].1.encoding(),
                ),
            ),
        decreases self.contents@.len() - a,
    {
        let n = self.contents@.len() as int;
        if a == n {
            assert(self.values_tail(a).len() == 0);
            assert(i == s.len());
            assert(Seq::new(0, |k: int| self.contents@[a + k].1.encoding()) =~= Seq::<
                Seq<u8>,
            >::empty());
        } else {
            let enc = self.contents@[a].1.encoding();
            let l = enc.len() as int;
            lemma_be_bytes_len(l, 8);
            assert(pow256(8) == 0x10000000000000000) by {
                reveal_with_fuel(pow256, 9);
            }
            lemma_be_value_of_bytes(l, 8);
            let tail = self.values_tail(a);
            let sub = s.subrange(i, s.len() as int);
            assert(tail == be_bytes(l, 8) + enc + self.values_tail(a + 1));
            assert(i + 8 + l <= s.len());
            assert(s.subrange(i, i + 8) =~= be_bytes(l, 8));
            assert(be_value(s.subrange(i, i + 8)) == l);
            assert forall|t: int| 0 <= t < l implies enc[t] == s[i + 8 + t] by {
                assert(sub[8 + t] == s[i + 8 + t]);
                assert(sub[8 + t] == enc[t]);
            }
            assert(s.subrange(i + 8, i + 8 + l) =~= enc);
            assert forall|t: int| 0 <= t < self.values_tail(a + 1).len() implies #[trigger] self.values_tail(
                a + 1,
            )[t] == s[i + 8 + l + t] by {
                assert(sub[8 + l + t] == s[i + 8 + l + t]);
                assert(sub[8 + l + t] == self.values_tail(a + 1)[t]);
            }
            assert(s.subrange(i + 8 + l, s.len() as int) =~= self.values_tail(a + 1));
            self.lemma_values_tail_parses(s, i + 8 + l, a + 1);
            let rest = Seq::new((n - a - 1) as nat, |k: int| self.contents@[a + 1 + k].1.encoding());
            assert(parse_values(s, i, n - a) == Some(seq![enc] + rest));
            assert(seq![enc] + rest =~= Seq::new(
                (n - a) as nat,
                |k: int| self.contents@[a + k].1.encoding(),
            ));
        }
    }
}

/// The serialised form of an index:
///
/// - bytes 0..8: the offset of the value section, as a big-endian 64-bit
///   integer, which equals 8 plus `DIMENSION * 4` bytes for each entry;
/// - from byte 8 to that offset: one fixed-size block per entry, in store
///   order, of `DIMENSION` big-endian 32-bit components;
/// - from the offset to the end: one record per entry, in the same order,
///   of a big-endian 64-bit length followed by that many bytes of the
///   value's own encoding.
///
/// Reading rebuilds the ordered index by re-inserting every entry, rather
/// than trusting it from the blob.
impl<T: ByteConversion> ByteConversion for SemanticVec<T> {
    type Model = Seq<(Seq<i32>, T::Model)>;

    open spec fn model(self) -> Seq<(Seq<i32>, T::Model)> {
        self.contents@.map_values(|e: (Vec<i32>, T)| (e.0@, e.1.model()))
    }

    open spec fn valid(self) -> bool {
        &&& self.well_formed()
        &&& self.order_canonical()
        &&& self.ldt@ == Seq::new(DIMENSION as nat, |k: int| k as i32)
        &&& 8 + self.contents@.len() * ((DIMENSION as int) * 4) <= usize::MAX as int
        &&& forall|k: int|
            0 <= k < self.contents@.len() ==> (#[trigger] self.contents@[k]).1.valid()
        &&& forall|k: int|
            0 <= k < self.contents@.len() ==> (#[trigger] self.contents@[k]).1.encoding().len()
                < pow256(8)
    }

    open spec fn encoding(self) -> Seq<u8> {
        be_bytes(8 + self.contents@.len() * ((DIMENSION as int) * 4), 8) + self.embeddings_tail(0)
            + self.values_tail(0)
    }

    open spec fn decodable(s: Seq<u8>) -> bool {
        &&& s.len() >= 8
        &&& 8 <= be_value(s.subrange(0, 8)) <= s.len()
        &&& (be_value(s.subrange(0, 8)) - 8) % ((DIMENSION as int) * 4) == 0
        &&& match parse_values(
            s,
            be_value(s.subrange(0, 8)),
            (be_value(s.subrange(0, 8)) - 8) / ((DIMENSION as int) * 4),
        ) {
            Some(payloads) => forall|k: int|
                0 <= k < payloads.len() ==> T::decodable(#[trigger] payloads[k]),
            None => false,
        }
    }

    open spec fn decoded(s: Seq<u8>) -> Seq<(Seq<i32>, T::Model)> {
        let start = be_value(s.subrange(0, 8));
        let n = (start - 8) / ((DIMENSION as int) * 4);
        let payloads = parse_values(s, start, n)->Some_0;
        Seq::new(n as nat, |k: int| (embedding_in(s, k), T::decoded(payloads[k])))
    }

    proof fn lemma_round_trip(self) {
        let n = self.contents@.len() as int;
        let blk = (DIMENSION as int) * 4;
        let s = self.encoding();
        let start = 8 + n * blk;
        let hdr = be_bytes(start, 8);
        lemma_be_bytes_len(start, 8);
        self.lemma_embeddings_tail_layout(0);
        assert(pow256(8) == 0x10000000000000000) by {
            reveal_with_fuel(pow256, 9);
        }
        assert(start < pow256(8));
        lemma_be_value_of_bytes(start, 8);
        assert(s.subrange(0, 8) =~= hdr);
        assert(be_value(s.subrange(0, 8)) == start);
        lemma_mod_multiples_basic(n, blk);
        assert((start - 8) % blk == 0);
        lemma_div_multiples_vanish(n, blk);
        assert(start - 8 == blk * n) by (nonlinear_arith)
            requires
                start == 8 + n * blk,
        ;
        assert((start - 8) / blk == n);
        assert(s.subrange(start, s.len() as int) =~= self.values_tail(0));
        self.lemma_values_tail_parses(s, start, 0);
        let payloads = Seq::new(n as nat, |k: int| self.contents@[k].1.encoding());
        assert(parse_values(s, start, n) == Some(payloads));
        assert forall|k: int| 0 <= k < n implies T::decodable(#[trigger] payloads[k])
            && T::decoded(payloads[k]) == self.contents@[k].1.model() by {
            self.contents@[k].1.lemma_round_trip();
        }
        let emb_region = self.embeddings_tail(0);
        assert forall|x: int| 0 <= x < emb_region.len() implies #[trigger] emb_region[x] == s[8
            + x] by {}
        assert forall|k: int| 0 <= k < n implies embedding_in(s, k) == (
        #[trigger] self.contents@[k]).0@ by {
            let e = self.contents@[k].0@;
            assert((k + 1) * blk == k * blk + blk && 0 <= k * blk && (k + 1) * blk <= n * blk)
                by (nonlinear_arith)
                requires
                    0 <= k < n,
                    blk > 0,
            ;
            assert(s.subrange(8 + k * blk, 8 + (k + 1) * blk) =~= self.embeddings_tail(0).subrange(
                k * blk,
                (k + 1) * blk,
            ));
            lemma_embedding_bytes_prefix_layout(e, e.len() as int);
            assert forall|j: int| 0 <= j < DIMENSION as int implies embedding_in(s, k)[j] == e[j] by {
                assert(s.subrange(8 + k * blk + 4 * j, 8 + k * blk + 4 * j + 4) =~= s.subrange(
                    8 + k * blk,
                    8 + (k + 1) * blk,
                ).subrange(4 * j, 4 * j + 4));
                lemma_component_round_trip(e[j]);
            }
            assert(embedding_in(s, k) =~= e);
        }
        assert(Self::decoded(s) =~= self.model());
    }

    fn to_bytes(self) -> (r: Vec<u8>) {
        let ghost orig = self;
        let ghost blk = (DIMENSION as int) * 4;
        let ghost zeros8 = Seq::new(8, |x: int| 0u8);
        let SemanticVec { contents, ldts: _ldts, ldt: _ldt } = self;
        let n = contents.len();

        let mut output: Vec<u8> = Vec::new();
        let mut b: usize = 0;
        while b < 8
            invariant
                b <= 8,
                output@.len() == b as int,
                forall|t: int| 0 <= t < b as int ==> output@[t] == 0u8,
            decreases 8 - b,
        {
            output.push(0u8);
            b = b + 1;
        }
        proof {
            assert(output@ =~= zeros8);
        }

        let mut k: usize = 0;
        while k < n
            invariant
                orig.valid(),
                n == contents@.len(),
                contents@ == orig.contents@,
                blk == (DIMENSION as int) * 4,
                zeros8 == Seq::new(8, |x: int| 0u8),
                k <= n,
                output@.len() == 8 + k as int * blk,
                output@ + orig.embeddings_tail(k as int) == zeros8 + orig.embeddings_tail(0),
            decreases n - k,
        {
            let ghost e = contents@[k as int].0@;
            let ghost out_k = output@;
            let mut j: usize = 0;
            while j < DIMENSION
                invariant
                    orig.valid(),
                    n == contents@.len(),
                    contents@ == orig.contents@,
                    k < n,
                    e == contents@[k as int].0@,
                    e.len() == DIMENSION as int,
                    j <= DIMENSION,
                    output@ == out_k + embedding_bytes_prefix(e, j as int),
                    output@.len() == out_k.len() + 4 * j as int,
                decreases DIMENSION - j,
            {
                let c: i32 = contents[k].0[j];
                let u: u32 = #[verifier::truncate] (c as u32);
                let mut cb = encode_be(u as u128, 4);
                proof {
                    lemma_be_bytes_len(u as int, 4);
                    assert(cb@ == component_bytes(c));
                }
                output.append(&mut cb);
                j = j + 1;
            }
            proof {
                assert(embedding_bytes_prefix(e, DIMENSION as int) == embedding_bytes(e));
                assert(orig.embeddings_tail(k as int) == embedding_bytes(e)
                    + orig.embeddings_tail(k as int + 1));
                assert(output@ + orig.embeddings_tail(k as int + 1) =~= out_k
                    + orig.embeddings_tail(k as int));
                orig.lemma_embeddings_tail_layout(k as int);
                orig.lemma_embeddings_tail_layout(k as int + 1);
                assert((n - k as int) * blk == blk + (n - k as int - 1) * blk)
                    by (nonlinear_arith);
                assert(8 + (k as int + 1) * blk == 8 + k as int * blk + blk) by (nonlinear_arith);
            }
            k = k + 1;
        }

        let start_len = output.len();
        let ghost pre_header = output@;
        let header = encode_be(start_len as u128, 8);
        let mut b2: usize = 0;
        while b2 < 8
            invariant
                b2 <= 8,
                header@.len() == 8,
                output@.len() == pre_header.len(),
                pre_header.len() >= 8,
                forall|t: int| 0 <= t < b2 as int ==> output@[t] == header@[t],
                forall|t: int| b2 as int <= t < output@.len() ==> output@[t] == pre_header[t],
            decreases 8 - b2,
        {
            let hb: u8 = header[b2];
            output.set(b2, hb);
            b2 = b2 + 1;
        }

        proof {
            assert(output@ =~= header@ + pre_header.subrange(8, pre_header.len() as int));
            assert(pre_header.subrange(8, pre_header.len() as int) =~= orig.embeddings_tail(0));
            assert(output@ == be_bytes(start_len as int, 8) + orig.embeddings_tail(0));
        }

        let ghost emb_done = output@;
        let mut vals = contents;
        proof {
            assert(vals@ =~= orig.contents@.subrange(0, n as int));
        }
        let mut k2: usize = 0;
        while k2 < n
            invariant
                orig.valid(),
                n == orig.contents@.len(),
                k2 <= n,
                vals@ == orig.contents@.subrange(k2 as int, n as int),
                output@ + orig.values_tail(k2 as int) == emb_done + orig.values_tail(0),
            decreases n - k2,
        {
            let pair = vals.remove(0);
            proof {
                assert(orig.contents@.subrange(k2 as int, n as int)[0] == orig.contents@[k2 as int]);
                assert(vals@ =~= orig.contents@.subrange(k2 as int + 1, n as int));
            }
            let (_emb, value) = pair;
            let ghost enc = value.encoding();
            let mut values_u8 = value.to_bytes();
            let mut len_bytes = encode_be(values_u8.len() as u128, 8);
            proof {
                assert(len_bytes@ == be_bytes(enc.len() as int, 8));
            }
            output.append(&mut len_bytes);
            output.append(&mut values_u8);
            proof {
                assert(orig.values_tail(k2 as int) == be_bytes(enc.len() as int, 8) + enc
                    + orig.values_tail(k2 as int + 1));
                assert(output@ + orig.values_tail(k2 as int + 1) =~= emb_done + orig.values_tail(
                    0,
                ));
            }
            k2 = k2 + 1;
        }

        proof {
            assert(orig.values_tail(n as int).len() == 0);
            assert(output@ =~= emb_done + orig.values_tail(0));
            assert(start_len as int == 8 + n as int * blk);
            assert(output@ =~= orig.encoding());
        }

        output
    }

    fn try_from_bytes(input: Vec<u8>) -> (r: Result<Self, FormatError>) {
        let ghost s = input@;
        let total = input.len();
        if total < 8 {
            return Err(FormatError);
        }

        let start128 = decode_be(&input, 0, 8);
        proof {
            assert(start128 as int == be_value(s.subrange(0, 8)));
        }
        if start128 < 8 {
            return Err(FormatError);
        }
        if start128 > total as u128 {
            return Err(FormatError);
        }
        let start = start128 as usize;

        let blk: usize = DIMENSION * 4;
        let emb_len = start - 8;
        if emb_len % blk != 0 {
            return Err(FormatError);
        }
        let n = emb_len / blk;
        proof {
            assert(blk as int == (DIMENSION as int) * 4);
            assert(n as int * 1536 == start as int - 8) by (nonlinear_arith)
                requires
                    n as int == (start as int - 8) / 1536,
                    (start as int - 8) % 1536 == 0,
                    start as int >= 8,
            ;
        }

        let mut out: SemanticVec<T> = SemanticVec::new();
        let ghost mut payloads: Seq<Seq<u8>> = Seq::empty();
        let mut val_i: usize = start;
        let mut e: usize = 0;

        while e < n
            invariant
                input@ == s,
                total == s.len(),
                s.len() >= 8,
                8 <= start as int <= total as int,
                start as int == be_value(s.subrange(0, 8)),
                (start as int - 8) % ((DIMENSION as int) * 4) == 0,
                n as int == (start as int - 8) / ((DIMENSION as int) * 4),
                n as int * 1536 == start as int - 8,
                blk == 1536,
                e <= n,
                start as int <= val_i as int <= total as int,
                out.well_formed(),
                out.order_canonical(),
                out.ldt@ == Seq::new(DIMENSION as nat, |k: int| k as i32),
                out.contents@.len() == e as int,
                forall|t: int|
                    0 <= t < e as int ==> (#[trigger] out.contents@[t]).0@ == embedding_in(s, t),
                forall|t: int|
                    0 <= t < e as int ==> (#[trigger] out.contents@[t]).1.valid()
                        && out.contents@[t].1.model() == T::decoded(payloads[t])
                        && out.contents@[t].1.encoding() == payloads[t],
                payloads.len() == e as int,
                forall|t: int| 0 <= t < e as int ==> T::decodable(#[trigger] payloads[t]),
                forall|t: int| 0 <= t < e as int ==> (#[trigger] payloads[t]).len() < pow256(8),
                out.embeddings_tail(0) == s.subrange(8, 8 + e as int * 1536),
                out.values_tail(0) == s.subrange(start as int, val_i as int),
                (match parse_values(s, val_i as int, n as int - e as int) {
                    Some(tailp) => parse_values(s, start as int, n as int) == Some(
                        payloads + tailp,
                    ),
                    None => parse_values(s, start as int, n as int) is None,
                }),
            decreases n - e,
        {
            proof {
                assert((e as int + 1) * 1536 == e as int * 1536 + 1536);
                assert((e as int + 1) * 1536 <= n as int * 1536) by (nonlinear_arith)
                    requires
                        e as int + 1 <= n as int,
                ;
            }
            let out_i = 8 + e * blk;

            let mut emb: Vec<i32> = Vec::new();
            let mut j: usize = 0;
            while j < DIMENSION
                invariant
                    input@ == s,
                    total == s.len(),
                    blk == 1536,
                    out_i as int == 8 + e as int * 1536,
                    out_i as int + 1536 <= start as int <= total as int,
                    j <= DIMENSION,
                    emb@.len() == j as int,
                    forall|t: int|
                        0 <= t < j as int ==> emb@[t] == embedding_in(s, e as int)[t],
                decreases DIMENSION - j,
            {
                let c128 = decode_be(&input, out_i + 4 * j, 4);
                let c: i32 = #[verifier::truncate] ((c128 as u32) as i32);
                proof {
                    let off = out_i as int + 4 * j as int;
                    let sub = s.subrange(off, off + 4);
                    lemma_be_bytes_of_value(sub);
                    assert(pow256(4) == 0x100000000) by {
                        reveal_with_fuel(pow256, 5);
                    }
                    assert(c128 as int == be_value(sub));
                    assert(c == component_of(sub));
                    assert(embedding_in(s, e as int)[j as int] == component_of(sub));
                }
                emb.push(c);
                j = j + 1;
            }
            proof {
                assert(emb@ =~= embedding_in(s, e as int));
            }

            if total - val_i < 8 {
                return Err(FormatError);
            }
            let l128 = decode_be(&input, val_i, 8);
            let ghost lg = be_value(s.subrange(val_i as int, val_i as int + 8));
            let remaining = total - (val_i + 8);
            if l128 > remaining as u128 {
                return Err(FormatError);
            }
            let l = l128 as usize;
            let payload = copy_range(&input, val_i + 8, l);
            let ghost pl = s.subrange(val_i as int + 8, val_i as int + 8 + lg);
            let ghost tail_rest = parse_values(s, val_i as int + 8 + lg, n as int - e as int - 1);

            proof {
                assert(parse_values(s, val_i as int, n as int - e as int) == (match tail_rest {
                    Some(rest) => Some(seq![pl] + rest),
                    None => None::<Seq<Seq<u8>>>,
                }));
            }

            match T::try_from_bytes(payload) {
                Ok(v) => {
                    let ghost out_before = out;
                    proof {
                        payloads = payloads.push(pl);
                    }
                    out.add(emb, v);
                    proof {
                        Self::lemma_tails_push(out_before, out, 0);
                        lemma_embedding_write_back(s, e as int);
                        assert(out.embeddings_tail(0) =~= s.subrange(
                            8,
                            8 + (e as int + 1) * 1536,
                        ));
                        lemma_be_bytes_of_value(s.subrange(val_i as int, val_i as int + 8));
                        assert(s.subrange(val_i as int, val_i as int + 8) =~= be_bytes(lg, 8));
                        assert(out.values_tail(0) =~= s.subrange(
                            start as int,
                            val_i as int + 8 + lg,
                        ));
                    }
                }
                Err(_) => {
                    proof {
                        match tail_rest {
                            Some(rest) => {
                                let all = payloads + (seq![pl] + rest);
                                assert(parse_values(s, val_i as int, n as int - e as int) == Some(
                                    seq![pl] + rest,
                                ));
                                assert(parse_values(s, start as int, n as int) == Some(all));
                                assert(all[e as int] == pl);
                                assert(0 <= e as int && (e as int) < all.len());
                                assert(!T::decodable(pl));
                                assert(be_value(s.subrange(0, 8)) == start as int);
                                assert((be_value(s.subrange(0, 8)) - 8) / ((DIMENSION as int) * 4)
                                    == n as int);
                                assert(parse_values(
                                    s,
                                    be_value(s.subrange(0, 8)),
                                    (be_value(s.subrange(0, 8)) - 8) / ((DIMENSION as int) * 4),
                                ) == Some(all));
                                let pall = parse_values(
                                    s,
                                    be_value(s.subrange(0, 8)),
                                    (be_value(s.subrange(0, 8)) - 8) / ((DIMENSION as int) * 4),
                                )->Some_0;
                                assert(pall == all);
                                assert(pall[e as int] == pl);
                                assert(Self::decodable(s) ==> T::decodable(pall[e as int]));
                                assert(!Self::decodable(s));
                            },
                            None => {
                                assert(parse_values(s, start as int, n as int) is None);
                                assert(!Self::decodable(s));
                            },
                        }
                    }
                    return Err(FormatError);
                }
            }

            val_i = val_i + 8 + l;
            e = e + 1;

            proof {
                let m1 = n as int - e as int;
                match parse_values(s, val_i as int, m1) {
                    Some(tailp) => {
                        assert(parse_values(s, val_i as int - 8 - lg, m1 + 1) == Some(
                            seq![pl] + tailp,
                        ));
                        assert(payloads.drop_last() + (seq![pl] + tailp) =~= payloads + tailp);
                    },
                    None => {
                        assert(parse_values(s, val_i as int - 8 - lg, m1 + 1) is None);
                    },
                }
            }
        }

        if val_i != total {
            return Err(FormatError);
        }

        proof {
            assert(parse_values(s, val_i as int, 0) == Some(Seq::<Seq<u8>>::empty()));
            assert(payloads + Seq::<Seq<u8>>::empty() =~= payloads);
            assert(parse_values(s, start as int, n as int) == Some(payloads));
            assert(Self::decodable(s));
            assert(Self::decoded(s) =~= out.model());
            lemma_be_bytes_of_value(s.subrange(0, 8));
            assert(s.subrange(0, 8) =~= be_bytes(start as int, 8));
            assert(out.encoding() =~= s);
            assert(pow256(8) == 0x10000000000000000) by {
                reveal_with_fuel(pow256, 9);
            }
        }

        Ok(out)
    }
}

} // verus!
